//! Tables: construction, row selection (take, filter, slice), stacking and
//! column edits.

use vstd::prelude::*;

use crate::cell::{cells_view, lemma_cells_view_push, Cell, DataType, Value};
use crate::error::TableError;
use crate::series::{all_fit, lemma_fit_pick, Series, SeriesV};

verus! {

/// A table: an ordered list of columns that all have the same length.
#[derive(Debug)]
pub struct PyDataFrame {
    columns: Vec<Series>,
}

/// The number of rows of a table seen as its columns; a table without
/// columns has no rows.
pub open spec fn height_of(t: Seq<SeriesV>) -> nat {
    if t.len() == 0 {
        0
    } else {
        t[0].values.len()
    }
}

/// Every column has as many elements as the first.
pub open spec fn rectangular(t: Seq<SeriesV>) -> bool {
    forall|j: int| 0 <= j < t.len() ==> (#[trigger] t[j]).values.len() == height_of(t)
}

/// Row indices as integers.
pub open spec fn idx_view(v: Seq<usize>) -> Seq<int> {
    v.map_values(|u: usize| u as int)
}

/// The rows of `t` at the indices `idx`, in the order of `idx`, repeats
/// included.
pub open spec fn take_spec(t: Seq<SeriesV>, idx: Seq<int>) -> Seq<SeriesV> {
    t.map_values(
        |c: SeriesV| SeriesV { values: idx.map_values(|i: int| c.values[i]), ..c },
    )
}

/// Whether every index lies below `n`.
pub open spec fn all_below(idx: Seq<int>, n: int) -> bool {
    forall|k: int| 0 <= k < idx.len() ==> 0 <= #[trigger] idx[k] < n
}

/// The positions of a mask that hold `true`, in increasing order.
pub open spec fn mask_rows(m: Seq<Value>) -> Seq<int>
    decreases m.len(),
{
    if m.len() == 0 {
        Seq::empty()
    } else if m.last() == Value::Bool(true) {
        mask_rows(m.drop_last()).push(m.len() - 1)
    } else {
        mask_rows(m.drop_last())
    }
}

/// The number of `true` entries of a mask.
pub open spec fn count_true(m: Seq<Value>) -> nat
    decreases m.len(),
{
    if m.len() == 0 {
        0
    } else if m.last() == Value::Bool(true) {
        count_true(m.drop_last()) + 1
    } else {
        count_true(m.drop_last())
    }
}

/// Rows `lo` up to (not including) `hi` of each column.
pub open spec fn slice_spec(t: Seq<SeriesV>, lo: int, hi: int) -> Seq<SeriesV> {
    t.map_values(|c: SeriesV| SeriesV { values: c.values.subrange(lo, hi), ..c })
}

/// The rows of `b` placed under the rows of `a`, column by column.
pub open spec fn vstack_spec(a: Seq<SeriesV>, b: Seq<SeriesV>) -> Seq<SeriesV> {
    Seq::new(a.len(), |j: int| SeriesV { values: a[j].values + b[j].values, ..a[j] })
}

/// How many rows `head` and `tail` keep of `h`: `length`, ten when it is
/// not given, and no more than `h`.
pub open spec fn first_count(length: Option<usize>, h: nat) -> int {
    let n = match length {
        Some(n) => n as int,
        None => 10,
    };
    if n <= h {
        n
    } else {
        h as int
    }
}

/// The position of the first column named `name`, or -1 where none is.
pub open spec fn lookup(t: Seq<SeriesV>, name: Seq<char>) -> int
    decreases t.len(),
{
    if t.len() == 0 {
        -1
    } else if lookup(t.drop_last(), name) >= 0 {
        lookup(t.drop_last(), name)
    } else if t.last().name == name {
        t.len() - 1
    } else {
        -1
    }
}

/// `lookup` gives -1 or the first position of the name.
pub proof fn lemma_lookup(t: Seq<SeriesV>, name: Seq<char>)
    ensures
        -1 <= lookup(t, name) < t.len(),
        lookup(t, name) >= 0 ==> t[lookup(t, name)].name == name,
        forall|j: int| 0 <= j < t.len() && (#[trigger] t[j]).name == name ==> 0 <= lookup(t, name) <= j,
    decreases t.len(),
{
    if t.len() > 0 {
        lemma_lookup(t.drop_last(), name);
        assert forall|j: int| 0 <= j < t.len() - 1 implies t[j] == t.drop_last()[j] by {}
    }
}

/// The columns of `t` whose names are among `names`, in table order.
pub open spec fn keep_named(t: Seq<SeriesV>, names: Seq<Seq<char>>) -> Seq<SeriesV>
    decreases t.len(),
{
    if t.len() == 0 {
        Seq::empty()
    } else if names.contains(t.last().name) {
        keep_named(t.drop_last(), names).push(t.last())
    } else {
        keep_named(t.drop_last(), names)
    }
}

/// The views of a list of columns.
pub open spec fn series_views(v: Seq<Series>) -> Seq<SeriesV> {
    v.map_values(|s: Series| s@)
}

/// The integers of a column of row indices; -1 stands for any other value.
pub open spec fn int_indices(v: Seq<Value>) -> Seq<int> {
    v.map_values(|x: Value| if let Value::Int(i) = x { i as int } else { -1 })
}

/// Whether two tables have the same columns, names, types and elements; a
/// null equals a null only with `null_equal`.
pub open spec fn frames_equal(a: Seq<SeriesV>, b: Seq<SeriesV>, null_equal: bool) -> bool {
    &&& a.len() == b.len()
    &&& forall|j: int|
        0 <= j < a.len() ==> {
            &&& (#[trigger] a[j]).name == b[j].name
            &&& a[j].dtype == b[j].dtype
            &&& a[j].values.len() == b[j].values.len()
            &&& forall|i: int|
                0 <= i < a[j].values.len() ==> (#[trigger] a[j].values[i]) == b[j].values[i] && (
                null_equal || !(a[j].values[i] is Null))
        }
}

/// Whether two tables have the same column names and types, in the same order.
pub open spec fn same_schema(a: Seq<SeriesV>, b: Seq<SeriesV>) -> bool {
    &&& a.len() == b.len()
    &&& forall|j: int|
        0 <= j < a.len() ==> (#[trigger] a[j]).name == b[j].name && a[j].dtype == b[j].dtype
}

/// The cells of a column, at the given row indices.
pub(crate) fn take_cells(vals: &Vec<Cell>, idx: &Vec<usize>) -> (r: Vec<Cell>)
    requires
        all_below(idx_view(idx@), vals@.len() as int),
    ensures
        cells_view(r@) == idx_view(idx@).map_values(|i: int| cells_view(vals@)[i]),
{
    let mut out: Vec<Cell> = Vec::new();
    let mut k: usize = 0;
    while k < idx.len()
        invariant
            k <= idx.len(),
            all_below(idx_view(idx@), vals@.len() as int),
            cells_view(out@) == idx_view(idx@.take(k as int)).map_values(
                |i: int| cells_view(vals@)[i],
            ),
        decreases idx.len() - k,
    {
        let i = idx[k];
        assert(idx_view(idx@)[k as int] == i as int);
        proof { lemma_cells_view_push(out@, vals[i as int]); }
        out.push(vals[i].duplicate());
        assert(idx_view(idx@.take(k + 1)).map_values(|i: int| cells_view(vals@)[i])
            =~= idx_view(idx@.take(k as int)).map_values(|i: int| cells_view(vals@)[i]).push(
            cells_view(vals@)[i as int],
        ));
        k += 1;
    }
    assert(idx@.take(k as int) == idx@);
    out
}

impl View for PyDataFrame {
    type V = Seq<SeriesV>;

    closed spec fn view(&self) -> Seq<SeriesV> {
        self.columns@.map_values(|s: Series| s@)
    }
}

impl PyDataFrame {
    /// Every column is well formed and all have the same length.
    pub closed spec fn wf(&self) -> bool {
        &&& forall|j: int| 0 <= j < self.columns@.len() ==> (#[trigger] self.columns@[j]).wf()
        &&& rectangular(self@)
    }

    /// The number of chunks of column `j`.
    pub closed spec fn chunk_count(&self, j: int) -> nat {
        self.columns@[j].n_chunks_spec()
    }

    pub proof fn lemma_wf(&self)
        requires
            self.wf(),
        ensures
            rectangular(self@),
            forall|j: int| 0 <= j < self@.len() ==> all_fit((#[trigger] self@[j]).values, self@[j].dtype),
    {
        assert forall|j: int| 0 <= j < self@.len() implies all_fit((#[trigger] self@[j]).values, self@[j].dtype) by {
            self.columns@[j].lemma_wf();
        }
    }

    /// Builds a table from a list of columns built in the same way.
    pub(crate) fn from_series(columns: Vec<Series>) -> (r: PyDataFrame)
        requires
            forall|j: int| 0 <= j < columns@.len() ==> (#[trigger] columns@[j]).wf(),
            rectangular(columns@.map_values(|s: Series| s@)),
        ensures
            r.wf(),
            r@ == columns@.map_values(|s: Series| s@),
    {
        PyDataFrame { columns }
    }

    /// A table of the given columns. Fails with `LengthMismatch` when two of
    /// them differ in length. No columns make an empty table.
    pub fn new(columns: Vec<Series>) -> (r: Result<PyDataFrame, TableError>)
        requires
            forall|j: int| 0 <= j < columns@.len() ==> (#[trigger] columns@[j]).wf(),
        ensures
            match r {
                Ok(t) => t.wf() && t@ == columns@.map_values(|s: Series| s@),
                Err(e) => e is LengthMismatch && !rectangular(
                    columns@.map_values(|s: Series| s@),
                ),
            },
    {
        let ghost v = columns@.map_values(|s: Series| s@);
        if columns.len() > 0 {
            let h = columns[0].len();
            let mut j: usize = 0;
            while j < columns.len()
                invariant
                    j <= columns.len(),
                    columns.len() > 0,
                    v == columns@.map_values(|s: Series| s@),
                    h as int == height_of(v),
                    forall|i: int| 0 <= i < columns@.len() ==> (#[trigger] columns@[i]).wf(),
                    forall|i: int| 0 <= i < j ==> (#[trigger] v[i]).values.len() == height_of(v),
                decreases columns.len() - j,
            {
                if columns[j].len() != h {
                    assert(v[j as int].values.len() != height_of(v));
                    return Err(TableError::LengthMismatch);
                }
                j += 1;
            }
        }
        Ok(PyDataFrame { columns })
    }

    /// The number of rows.
    pub fn height(&self) -> (r: usize)
        requires
            self.wf(),
        ensures
            r as int == height_of(self@),
    {
        if self.columns.len() == 0 {
            0
        } else {
            self.columns[0].len()
        }
    }

    /// The number of columns.
    pub fn width(&self) -> (r: usize)
        ensures
            r as int == self@.len(),
    {
        self.columns.len()
    }

    /// The number of rows and the number of columns.
    pub fn shape(&self) -> (r: (usize, usize))
        requires
            self.wf(),
        ensures
            r.0 as int == height_of(self@),
            r.1 as int == self@.len(),
    {
        (self.height(), self.width())
    }

    /// The rows at `indices`, in their order; an index may repeat. Fails with
    /// `IndexOutOfBounds` when an index is not below the height.
    pub fn take(&self, indices: &Vec<usize>) -> (r: Result<PyDataFrame, TableError>)
        requires
            self.wf(),
        ensures
            match r {
                Ok(t) => all_below(idx_view(indices@), height_of(self@) as int) && t.wf() && t@
                    == take_spec(self@, idx_view(indices@)),
                Err(e) => e is IndexOutOfBounds && !all_below(
                    idx_view(indices@),
                    height_of(self@) as int,
                ),
            },
    {
        let h = self.height();
        let mut k: usize = 0;
        while k < indices.len()
            invariant
                k <= indices.len(),
                h as int == height_of(self@),
                forall|i: int| 0 <= i < k ==> 0 <= #[trigger] idx_view(indices@)[i] < h,
            decreases indices.len() - k,
        {
            if indices[k] >= h {
                assert(idx_view(indices@)[k as int] >= h);
                return Err(TableError::IndexOutOfBounds);
            }
            k += 1;
        }
        Ok(self.take_unchecked(indices))
    }

    /// The rows at `indices`, which all lie below the height.
    pub(crate) fn take_unchecked(&self, indices: &Vec<usize>) -> (r: PyDataFrame)
        requires
            self.wf(),
            all_below(idx_view(indices@), height_of(self@) as int),
        ensures
            r.wf(),
            r@ == take_spec(self@, idx_view(indices@)),
            height_of(r@) == indices@.len() || self@.len() == 0,
    {
        let ghost goal = take_spec(self@, idx_view(indices@));
        let mut out: Vec<Series> = Vec::new();
        let mut j: usize = 0;
        while j < self.columns.len()
            invariant
                j <= self.columns.len(),
                self.wf(),
                all_below(idx_view(indices@), height_of(self@) as int),
                goal == take_spec(self@, idx_view(indices@)),
                out@.len() == j,
                forall|i: int| 0 <= i < j ==> (#[trigger] out@[i]).wf() && out@[i]@ == goal[i],
            decreases self.columns.len() - j,
        {
            let col = &self.columns[j];
            let cells = col.to_cells();
            assert(self@[j as int] == col@);
            let taken = take_cells(&cells, indices);
            proof {
                col.lemma_wf();
                lemma_fit_pick(cells_view(cells@), idx_view(indices@), col@.dtype);
            }
            let s = Series::from_cells(col.name(), col.dtype(), taken);
            assert(s@.values =~= goal[j as int].values);
            out.push(s);
            j += 1;
        }
        let ghost ov = out@.map_values(|s: Series| s@);
        assert(ov =~= goal);
        assert(rectangular(ov));
        PyDataFrame { columns: out }
    }

    /// The rows where `mask` holds `true`, in their order; a null in the mask
    /// counts as `false`. Fails with `TypeMismatch` when the mask is not
    /// boolean, else with `LengthMismatch` when its length is not the height.
    pub fn filter(&self, mask: &Series) -> (r: Result<PyDataFrame, TableError>)
        requires
            self.wf(),
            mask.wf(),
        ensures
            match r {
                Ok(t) => mask@.dtype == DataType::Bool && mask@.values.len() == height_of(self@)
                    && t.wf() && t@ == take_spec(self@, mask_rows(mask@.values)),
                Err(e) => (mask@.dtype != DataType::Bool && e is TypeMismatch) || (mask@.dtype
                    == DataType::Bool && mask@.values.len() != height_of(self@)
                    && e is LengthMismatch),
            },
    {
        if mask.dtype() != DataType::Bool {
            return Err(TableError::TypeMismatch);
        }
        let h = self.height();
        if mask.len() != h {
            return Err(TableError::LengthMismatch);
        }
        let cells = mask.to_cells();
        let ghost m = mask@.values;
        let mut idx: Vec<usize> = Vec::new();
        let mut i: usize = 0;
        while i < cells.len()
            invariant
                i <= cells.len(),
                cells_view(cells@) == m,
                cells@.len() == h,
                idx_view(idx@) == mask_rows(m.take(i as int)),
                all_below(idx_view(idx@), i as int),
            decreases cells.len() - i,
        {
            assert(m.take(i + 1).drop_last() == m.take(i as int));
            assert(m.take(i + 1).last() == cells@[i as int]@);
            let keep = match &cells[i] {
                Cell::Bool(b) => *b,
                _ => false,
            };
            if keep {
                idx.push(i);
                assert(idx_view(idx@) =~= mask_rows(m.take(i as int)).push(i as int));
            }
            i += 1;
        }
        assert(m.take(i as int) == m);
        Ok(self.take_unchecked(&idx))
    }

    /// The rows `lo` up to (not including) `hi`.
    fn slice_rows(&self, lo: usize, hi: usize) -> (r: PyDataFrame)
        requires
            self.wf(),
            lo <= hi <= height_of(self@),
        ensures
            r.wf(),
            r@ == slice_spec(self@, lo as int, hi as int),
    {
        let ghost goal = slice_spec(self@, lo as int, hi as int);
        let mut out: Vec<Series> = Vec::new();
        let mut j: usize = 0;
        while j < self.columns.len()
            invariant
                j <= self.columns.len(),
                self.wf(),
                lo <= hi <= height_of(self@),
                goal == slice_spec(self@, lo as int, hi as int),
                out@.len() == j,
                forall|i: int| 0 <= i < j ==> (#[trigger] out@[i]).wf() && out@[i]@ == goal[i],
            decreases self.columns.len() - j,
        {
            let col = &self.columns[j];
            let cells = col.to_cells();
            assert(self@[j as int] == col@);
            let mut part: Vec<Cell> = Vec::new();
            let mut k: usize = lo;
            while k < hi
                invariant
                    lo <= k <= hi,
                    hi <= cells@.len(),
                    cells_view(part@) == cells_view(cells@).subrange(lo as int, k as int),
                decreases hi - k,
            {
                proof { lemma_cells_view_push(part@, cells@[k as int]); }
                part.push(cells[k].duplicate());
                assert(cells_view(cells@).subrange(lo as int, k + 1) =~= cells_view(
                    cells@,
                ).subrange(lo as int, k as int).push(cells@[k as int]@));
                k += 1;
            }
            proof { col.lemma_wf(); }
            assert(all_fit(cells_view(part@), col@.dtype)) by {
                assert forall|q: int| 0 <= q < cells_view(part@).len() implies crate::cell::fits(
                    #[trigger] cells_view(part@)[q],
                    col@.dtype,
                ) by {
                    assert(cells_view(part@)[q] == cells_view(cells@)[lo + q]);
                }
            }
            let s = Series::from_cells(col.name(), col.dtype(), part);
            assert(s@ == goal[j as int]);
            out.push(s);
            j += 1;
        }
        let ghost ov = out@.map_values(|s: Series| s@);
        assert(ov =~= goal);
        PyDataFrame { columns: out }
    }

    /// `length` rows from row `offset` on, fewer where the table ends first.
    /// Fails with `IndexOutOfBounds` when `offset` lies past the height.
    pub fn slice(&self, offset: usize, length: usize) -> (r: Result<PyDataFrame, TableError>)
        requires
            self.wf(),
        ensures
            match r {
                Ok(t) => offset <= height_of(self@) && t.wf() && t@ == slice_spec(
                    self@,
                    offset as int,
                    if offset + length <= height_of(self@) {
                        offset + length
                    } else {
                        height_of(self@) as int
                    },
                ),
                Err(e) => e is IndexOutOfBounds && offset > height_of(self@),
            },
    {
        let h = self.height();
        if offset > h {
            return Err(TableError::IndexOutOfBounds);
        }
        let hi = if length <= h - offset {
            offset + length
        } else {
            h
        };
        Ok(self.slice_rows(offset, hi))
    }

    /// The first `length` rows (ten when none is given), or all of them
    /// where the table is shorter.
    pub fn head(&self, length: Option<usize>) -> (r: PyDataFrame)
        requires
            self.wf(),
        ensures
            r.wf(),
            r@ == slice_spec(self@, 0, first_count(length, height_of(self@))),
    {
        let h = self.height();
        let n = match length {
            Some(n) => n,
            None => 10,
        };
        let k = if n <= h {
            n
        } else {
            h
        };
        self.slice_rows(0, k)
    }

    /// The last `length` rows (ten when none is given), or all of them
    /// where the table is shorter.
    pub fn tail(&self, length: Option<usize>) -> (r: PyDataFrame)
        requires
            self.wf(),
        ensures
            r.wf(),
            r@ == slice_spec(
                self@,
                height_of(self@) - first_count(length, height_of(self@)),
                height_of(self@) as int,
            ),
    {
        let h = self.height();
        let n = match length {
            Some(n) => n,
            None => 10,
        };
        let k = if n <= h {
            n
        } else {
            h
        };
        self.slice_rows(h - k, h)
    }

    /// The rows of `other` placed under the rows of this table, as a new
    /// table. Fails with `SchemaMismatch` when the column names or types
    /// differ.
    pub fn vstack(&self, other: &PyDataFrame) -> (r: Result<PyDataFrame, TableError>)
        requires
            self.wf(),
            other.wf(),
            height_of(self@) + height_of(other@) <= usize::MAX,
        ensures
            match r {
                Ok(t) => same_schema(self@, other@) && t.wf() && t@ == vstack_spec(self@, other@),
                Err(e) => e is SchemaMismatch && !same_schema(self@, other@),
            },
    {
        let mut t = self.duplicate();
        match t.vstack_mut(other) {
            Ok(()) => Ok(t),
            Err(e) => Err(e),
        }
    }

    /// Places the rows of `other` under the rows of this table. The chunks of
    /// `other` are copied and added as chunks of their own. Fails with
    /// `SchemaMismatch`, leaving the table as it was, when the column names or
    /// types differ.
    pub fn vstack_mut(&mut self, other: &PyDataFrame) -> (r: Result<(), TableError>)
        requires
            old(self).wf(),
            other.wf(),
            height_of(old(self)@) + height_of(other@) <= usize::MAX,
        ensures
            final(self).wf(),
            match r {
                Ok(_) => same_schema(old(self)@, other@) && final(self)@ == vstack_spec(
                    old(self)@,
                    other@,
                ),
                Err(e) => e is SchemaMismatch && !same_schema(old(self)@, other@) && final(self)@
                    == old(self)@,
            },
    {
        if self.columns.len() != other.columns.len() {
            return Err(TableError::SchemaMismatch);
        }
        let mut j: usize = 0;
        while j < self.columns.len()
            invariant
                j <= self.columns.len(),
                self.columns.len() == other.columns.len(),
                self == old(self),
                self.wf(),
                forall|i: int|
                    0 <= i < j ==> (#[trigger] self@[i]).name == other@[i].name && self@[i].dtype
                        == other@[i].dtype,
            decreases self.columns.len() - j,
        {
            if !self.columns[j].has_name(&other.columns[j].name())
                || self.columns[j].dtype() != other.columns[j].dtype() {
                assert(self@[j as int] == self.columns@[j as int]@);
                return Err(TableError::SchemaMismatch);
            }
            j += 1;
        }
        let ghost old_v = self@;
        let ghost goal = vstack_spec(self@, other@);
        let mut cols: Vec<Series> = Vec::new();
        std::mem::swap(&mut cols, &mut self.columns);
        let mut out: Vec<Series> = Vec::new();
        let mut j: usize = 0;
        while j < cols.len()
            invariant
                j <= cols.len(),
                cols@.len() == other.columns@.len(),
                cols@.map_values(|s: Series| s@) == old_v,
                forall|i: int| 0 <= i < cols@.len() ==> (#[trigger] cols@[i]).wf(),
                rectangular(old_v),
                other.wf(),
                same_schema(old_v, other@),
                height_of(old_v) + height_of(other@) <= usize::MAX,
                goal == vstack_spec(old_v, other@),
                out@.len() == j,
                forall|i: int| 0 <= i < j ==> (#[trigger] out@[i]).wf() && out@[i]@ == goal[i],
            decreases cols.len() - j,
        {
            let mut c = cols[j].duplicate();
            assert(old_v[j as int] == cols@[j as int]@);
            assert(other@[j as int] == other.columns@[j as int]@);
            c.append_series(&other.columns[j]);
            assert(c@ == goal[j as int]);
            out.push(c);
            j += 1;
        }
        let ghost ov = out@.map_values(|s: Series| s@);
        assert(ov =~= goal);
        self.columns = out;
        Ok(())
    }

    /// A copy of this table.
    pub fn duplicate(&self) -> (r: PyDataFrame)
        requires
            self.wf(),
        ensures
            r.wf(),
            r@ == self@,
    {
        let mut out: Vec<Series> = Vec::new();
        let mut j: usize = 0;
        while j < self.columns.len()
            invariant
                j <= self.columns.len(),
                self.wf(),
                out@.len() == j,
                forall|i: int|
                    0 <= i < j ==> (#[trigger] out@[i]).wf() && out@[i]@ == self.columns@[i]@,
            decreases self.columns.len() - j,
        {
            out.push(self.columns[j].duplicate());
            j += 1;
        }
        assert(out@.map_values(|s: Series| s@) =~= self@);
        PyDataFrame { columns: out }
    }

    /// The position of the first column named `name`, if any.
    pub fn find_idx_by_name(&self, name: &String) -> (r: Option<usize>)
        ensures
            match r {
                Some(j) => j == lookup(self@, name@),
                None => lookup(self@, name@) == -1,
            },
    {
        proof { lemma_lookup(self@, name@); }
        let mut j: usize = 0;
        while j < self.columns.len()
            invariant
                j <= self.columns.len(),
                forall|i: int| 0 <= i < j ==> (#[trigger] self@[i]).name != name@,
                -1 <= lookup(self@, name@) < self@.len(),
                lookup(self@, name@) >= 0 ==> self@[lookup(self@, name@)].name == name@,
                forall|i: int|
                    0 <= i < self@.len() && (#[trigger] self@[i]).name == name@ ==> 0 <= lookup(
                        self@,
                        name@,
                    ) <= i,
            decreases self.columns.len() - j,
        {
            assert(self@[j as int] == self.columns@[j as int]@);
            if self.columns[j].has_name(name) {
                return Some(j);
            }
            j += 1;
        }
        None
    }

    /// A copy of the first column named `name`. Fails with `ColumnNotFound`
    /// when there is none.
    pub fn column(&self, name: &String) -> (r: Result<Series, TableError>)
        requires
            self.wf(),
        ensures
            match r {
                Ok(s) => lookup(self@, name@) >= 0 && s.wf() && s@ == self@[lookup(self@, name@)],
                Err(e) => lookup(self@, name@) == -1 && e == TableError::ColumnNotFound(*name),
            },
    {
        proof { lemma_lookup(self@, name@); }
        match self.find_idx_by_name(name) {
            Some(j) => Ok(self.columns[j].duplicate()),
            None => Err(TableError::ColumnNotFound(name.clone())),
        }
    }

    /// A copy of the column at position `idx`, if there is one.
    pub fn select_at_idx(&self, idx: usize) -> (r: Option<Series>)
        requires
            self.wf(),
        ensures
            match r {
                Some(s) => idx < self@.len() && s.wf() && s@ == self@[idx as int],
                None => idx >= self@.len(),
            },
    {
        if idx < self.columns.len() {
            Some(self.columns[idx].duplicate())
        } else {
            None
        }
    }

    /// The column at position `j`.
    pub(crate) fn series_at(&self, j: usize) -> (r: &Series)
        requires
            self.wf(),
            j < self@.len(),
        ensures
            r.wf(),
            r@ == self@[j as int],
    {
        &self.columns[j]
    }

    /// Whether every column is well formed and all have the same length.
    pub fn is_well_formed(&self) -> (r: bool)
        ensures
            r == self.wf(),
    {
        let mut j: usize = 0;
        while j < self.columns.len()
            invariant
                j <= self.columns.len(),
                forall|i: int| 0 <= i < j ==> (#[trigger] self.columns@[i]).wf(),
            decreases self.columns.len() - j,
        {
            if !self.columns[j].is_consistent() {
                return false;
            }
            j += 1;
        }
        if self.columns.len() == 0 {
            return true;
        }
        let h = self.columns[0].len();
        let mut j: usize = 0;
        while j < self.columns.len()
            invariant
                j <= self.columns.len(),
                self.columns.len() > 0,
                forall|i: int| 0 <= i < self.columns@.len() ==> (#[trigger] self.columns@[i]).wf(),
                h as int == height_of(self@),
                forall|i: int| 0 <= i < j ==> (#[trigger] self@[i]).values.len() == height_of(self@),
            decreases self.columns.len() - j,
        {
            assert(self@[j as int] == self.columns@[j as int]@);
            if self.columns[j].len() != h {
                return false;
            }
            j += 1;
        }
        true
    }

    /// The names of the columns, in order.
    pub fn columns(&self) -> (r: Vec<String>)
        ensures
            r@.len() == self@.len(),
            forall|j: int| 0 <= j < self@.len() ==> (#[trigger] r@[j])@ == self@[j].name,
    {
        let mut out: Vec<String> = Vec::new();
        let mut j: usize = 0;
        while j < self.columns.len()
            invariant
                j <= self.columns.len(),
                out@.len() == j,
                forall|i: int| 0 <= i < j ==> (#[trigger] out@[i])@ == self@[i].name,
            decreases self.columns.len() - j,
        {
            out.push(self.columns[j].name());
            j += 1;
        }
        out
    }

    /// The types of the columns, in order.
    pub fn dtypes(&self) -> (r: Vec<DataType>)
        ensures
            r@.len() == self@.len(),
            forall|j: int| 0 <= j < self@.len() ==> (#[trigger] r@[j]) == self@[j].dtype,
    {
        let mut out: Vec<DataType> = Vec::new();
        let mut j: usize = 0;
        while j < self.columns.len()
            invariant
                j <= self.columns.len(),
                out@.len() == j,
                forall|i: int| 0 <= i < j ==> (#[trigger] out@[i]) == self@[i].dtype,
            decreases self.columns.len() - j,
        {
            out.push(self.columns[j].dtype());
            j += 1;
        }
        out
    }

    /// Copies of the columns, in order.
    pub fn get_columns(&self) -> (r: Vec<Series>)
        requires
            self.wf(),
        ensures
            r@.len() == self@.len(),
            forall|j: int| 0 <= j < self@.len() ==> (#[trigger] r@[j]).wf() && r@[j]@ == self@[j],
    {
        let mut out: Vec<Series> = Vec::new();
        let mut j: usize = 0;
        while j < self.columns.len()
            invariant
                j <= self.columns.len(),
                self.wf(),
                out@.len() == j,
                forall|i: int| 0 <= i < j ==> (#[trigger] out@[i]).wf() && out@[i]@ == self@[i],
            decreases self.columns.len() - j,
        {
            assert(self@[j as int] == self.columns@[j as int]@);
            out.push(self.columns[j].duplicate());
            j += 1;
        }
        out
    }

    /// The number of chunks of each column, in order.
    pub fn n_chunks(&self) -> (r: Vec<usize>)
        ensures
            r@.len() == self@.len(),
            forall|j: int|
                0 <= j < self@.len() ==> (#[trigger] r@[j]) == self.chunk_count(j),
    {
        let mut out: Vec<usize> = Vec::new();
        let mut j: usize = 0;
        while j < self.columns.len()
            invariant
                j <= self.columns.len(),
                out@.len() == j,
                forall|i: int| 0 <= i < j ==> (#[trigger] out@[i]) == self.chunk_count(i),
            decreases self.columns.len() - j,
        {
            out.push(self.columns[j].n_chunks());
            j += 1;
        }
        out
    }

    /// A copy of this table in which every column is held in one chunk.
    pub fn rechunk(&self) -> (r: PyDataFrame)
        requires
            self.wf(),
        ensures
            r.wf(),
            r@ == self@,
            forall|j: int| 0 <= j < r@.len() ==> #[trigger] r.chunk_count(j) == 1,
    {
        let mut out: Vec<Series> = Vec::new();
        let mut j: usize = 0;
        while j < self.columns.len()
            invariant
                j <= self.columns.len(),
                self.wf(),
                out@.len() == j,
                forall|i: int|
                    0 <= i < j ==> (#[trigger] out@[i]).wf() && out@[i]@ == self.columns@[i]@
                        && out@[i].n_chunks_spec() == 1,
            decreases self.columns.len() - j,
        {
            out.push(self.columns[j].rechunk());
            j += 1;
        }
        assert(out@.map_values(|s: Series| s@) =~= self@);
        PyDataFrame { columns: out }
    }

    /// Whether `other` has the same columns, names, types and elements as
    /// this table; a null equals a null only with `null_equal`.
    pub fn frame_equal(&self, other: &PyDataFrame, null_equal: bool) -> (r: bool)
        requires
            self.wf(),
            other.wf(),
        ensures
            r == frames_equal(self@, other@, null_equal),
    {
        if self.columns.len() != other.columns.len() {
            return false;
        }
        let mut j: usize = 0;
        while j < self.columns.len()
            invariant
                j <= self.columns.len(),
                self.columns.len() == other.columns.len(),
                self.wf(),
                other.wf(),
                forall|q: int|
                    0 <= q < j ==> {
                        &&& (#[trigger] self@[q]).name == other@[q].name
                        &&& self@[q].dtype == other@[q].dtype
                        &&& self@[q].values.len() == other@[q].values.len()
                        &&& forall|i: int|
                            0 <= i < self@[q].values.len() ==> (#[trigger] self@[q].values[i])
                                == other@[q].values[i] && (null_equal || !(
                            self@[q].values[i] is Null))
                    },
            decreases self.columns.len() - j,
        {
            let a = &self.columns[j];
            let b = &other.columns[j];
            assert(self@[j as int] == a@ && other@[j as int] == b@);
            if !a.has_name(&b.name()) || a.dtype() != b.dtype() || a.len() != b.len() {
                return false;
            }
            let x = a.to_cells();
            let y = b.to_cells();
            let mut i: usize = 0;
            while i < x.len()
                invariant
                    i <= x.len(),
                    x@.len() == y@.len(),
                    j < self@.len(),
                    self@.len() == other@.len(),
                    self@[j as int] == a@,
                    other@[j as int] == b@,
                    cells_view(x@) == a@.values,
                    cells_view(y@) == b@.values,
                    forall|k: int|
                        0 <= k < i ==> (#[trigger] a@.values[k]) == b@.values[k] && (null_equal || !(
                        a@.values[k] is Null)),
                decreases x.len() - i,
            {
                if !x[i].same(&y[i]) || (!null_equal && x[i].is_null()) {
                    assert(!(a@.values[i as int] == b@.values[i as int] && (null_equal || !(
                    a@.values[i as int] is Null))));
                    return false;
                }
                i += 1;
            }
            j += 1;
        }
        true
    }

    /// Whether `name` is one of `names`.
    fn name_in(name: &String, names: &Vec<String>) -> (r: bool)
        ensures
            r == names@.map_values(|s: String| s@).contains(name@),
    {
        let ghost nv = names@.map_values(|s: String| s@);
        let mut p: usize = 0;
        while p < names.len()
            invariant
                p <= names.len(),
                nv == names@.map_values(|s: String| s@),
                forall|q: int| 0 <= q < p ==> nv[q] != name@,
            decreases names.len() - p,
        {
            if names[p] == *name {
                assert(nv[p as int] == name@);
                return true;
            }
            p += 1;
        }
        false
    }

    /// The columns whose names are in `selection`, in the order of the
    /// table. Fails with `ColumnNotFound` when a name of `selection` is not a
    /// column's name.
    pub fn select(&self, selection: &Vec<String>) -> (r: Result<PyDataFrame, TableError>)
        requires
            self.wf(),
        ensures
            ({
                let nv = selection@.map_values(|s: String| s@);
                match r {
                    Ok(t) => (forall|p: int| 0 <= p < nv.len() ==> lookup(self@, #[trigger] nv[p]) >= 0)
                        && t.wf() && t@ == keep_named(self@, nv),
                    Err(e) => e is ColumnNotFound && exists|p: int|
                        0 <= p < nv.len() && lookup(self@, #[trigger] nv[p]) == -1,
                }
            }),
    {
        let ghost nv = selection@.map_values(|s: String| s@);
        let mut p: usize = 0;
        while p < selection.len()
            invariant
                p <= selection.len(),
                nv == selection@.map_values(|s: String| s@),
                forall|q: int| 0 <= q < p ==> lookup(self@, #[trigger] nv[q]) >= 0,
            decreases selection.len() - p,
        {
            match self.find_idx_by_name(&selection[p]) {
                Some(_) => {},
                None => {
                    assert(lookup(self@, nv[p as int]) == -1);
                    return Err(TableError::ColumnNotFound(selection[p].clone()));
                },
            }
            p += 1;
        }
        proof { self.lemma_wf(); }
        let mut out: Vec<Series> = Vec::new();
        let mut j: usize = 0;
        while j < self.columns.len()
            invariant
                j <= self.columns.len(),
                self.wf(),
                rectangular(self@),
                nv == selection@.map_values(|s: String| s@),
                forall|i: int| 0 <= i < out@.len() ==> (#[trigger] out@[i]).wf(),
                series_views(out@) == keep_named(self@.take(j as int), nv),
                forall|i: int|
                    0 <= i < out@.len() ==> (#[trigger] out@[i])@.values.len() == height_of(self@),
            decreases self.columns.len() - j,
        {
            let ghost pre = self@.take(j as int);
            assert(self@.take(j + 1).drop_last() == pre);
            assert(self@.take(j + 1).last() == self.columns@[j as int]@);
            if Self::name_in(&self.columns[j].name(), selection) {
                let c = self.columns[j].duplicate();
                out.push(c);
                assert(series_views(out@) =~= keep_named(pre, nv).push(self@[j as int]));
            }
            j += 1;
        }
        assert(self@.take(j as int) == self@);
        assert(rectangular(series_views(out@))) by {
            if out@.len() > 0 {
                assert(series_views(out@)[0].values.len() == height_of(self@));
            }
        }
        Ok(PyDataFrame { columns: out })
    }

    /// Removes the first column named `name` and hands it back. Fails with
    /// `ColumnNotFound`, leaving the table as it was, when there is none.
    pub fn drop_in_place(&mut self, name: &String) -> (r: Result<Series, TableError>)
        requires
            old(self).wf(),
        ensures
            final(self).wf(),
            match r {
                Ok(s) => lookup(old(self)@, name@) >= 0 && s.wf() && s@ == old(self)@[lookup(
                    old(self)@,
                    name@,
                )] && final(self)@ == old(self)@.remove(lookup(old(self)@, name@)),
                Err(e) => lookup(old(self)@, name@) == -1 && e is ColumnNotFound && final(self)@
                    == old(self)@,
            },
    {
        proof { lemma_lookup(self@, name@); }
        match self.find_idx_by_name(name) {
            Some(j) => {
                let ghost before = self.columns@;
                let s = self.columns.remove(j);
                assert(self@ =~= series_views(before).remove(j as int));
                assert(rectangular(self@)) by {
                    if self@.len() > 0 {
                        assert(self@[0].values.len() == height_of(series_views(before)));
                    }
                }
                assert(forall|i: int| 0 <= i < self.columns@.len() ==> (#[trigger] self.columns@[i]).wf()) by {
                    assert forall|i: int| 0 <= i < self.columns@.len() implies (#[trigger] self.columns@[i]).wf() by {
                        if i < j { assert(self.columns@[i] == before[i]); } else { assert(self.columns@[i] == before[i + 1]); }
                    }
                }
                Ok(s)
            },
            None => Err(TableError::ColumnNotFound(name.clone())),
        }
    }

    /// The table without its first column named `name`. Fails with
    /// `ColumnNotFound` when there is none.
    pub fn drop(&self, name: &String) -> (r: Result<PyDataFrame, TableError>)
        requires
            self.wf(),
        ensures
            match r {
                Ok(t) => lookup(self@, name@) >= 0 && t.wf() && t@ == self@.remove(
                    lookup(self@, name@),
                ),
                Err(e) => lookup(self@, name@) == -1 && e is ColumnNotFound,
            },
    {
        let mut t = self.duplicate();
        match t.drop_in_place(name) {
            Ok(_) => Ok(t),
            Err(e) => Err(e),
        }
    }

    /// Whether adding `extra` after the columns keeps all lengths equal.
    fn fits_with(&self, extra: &Vec<Series>) -> (r: bool)
        requires
            self.wf(),
            forall|i: int| 0 <= i < extra@.len() ==> (#[trigger] extra@[i]).wf(),
        ensures
            r == rectangular(self@ + series_views(extra@)),
    {
        proof { self.lemma_wf(); }
        let ghost all = self@ + series_views(extra@);
        if self.columns.len() == 0 && extra.len() == 0 {
            return true;
        }
        let h = if self.columns.len() > 0 {
            self.columns[0].len()
        } else {
            extra[0].len()
        };
        assert(h == height_of(all));
        let mut i: usize = 0;
        while i < extra.len()
            invariant
                i <= extra.len(),
                all == self@ + series_views(extra@),
                h == height_of(all),
                rectangular(self@),
                self@.len() > 0 ==> height_of(self@) == h,
                forall|q: int| 0 <= q < extra@.len() ==> (#[trigger] extra@[q]).wf(),
                forall|q: int| 0 <= q < i ==> (#[trigger] extra@[q])@.values.len() == h,
            decreases extra.len() - i,
        {
            if extra[i].len() != h {
                assert(all[self@.len() + i] == extra@[i as int]@);
                return false;
            }
            i += 1;
        }
        assert forall|q: int| 0 <= q < all.len() implies (#[trigger] all[q]).values.len() == height_of(all) by {
            if q >= self@.len() {
                assert(all[q] == extra@[q - self@.len()]@);
            }
        }
        true
    }

    /// Adds `columns` after the columns of this table. Fails with
    /// `LengthMismatch`, leaving the table as it was, when their lengths do
    /// not agree with the height.
    pub fn hstack_mut(&mut self, columns: Vec<Series>) -> (r: Result<(), TableError>)
        requires
            old(self).wf(),
            forall|i: int| 0 <= i < columns@.len() ==> (#[trigger] columns@[i]).wf(),
        ensures
            final(self).wf(),
            match r {
                Ok(_) => rectangular(old(self)@ + series_views(columns@)) && final(self)@ == old(
                    self,
                )@ + series_views(columns@),
                Err(e) => !rectangular(old(self)@ + series_views(columns@)) && e is LengthMismatch
                    && final(self)@ == old(self)@,
            },
    {
        if !self.fits_with(&columns) {
            return Err(TableError::LengthMismatch);
        }
        let ghost before = self.columns@;
        let mut extra = columns;
        self.columns.append(&mut extra);
        assert(self@ =~= series_views(before) + series_views(columns@));
        assert forall|i: int| 0 <= i < self.columns@.len() implies (#[trigger] self.columns@[i]).wf() by {
            if i >= before.len() {
                assert(self.columns@[i] == columns@[i - before.len()]);
            } else {
                assert(self.columns@[i] == before[i]);
            }
        }
        Ok(())
    }

    /// This table with `columns` added after its columns. Fails with
    /// `LengthMismatch` when their lengths do not agree with the height.
    pub fn hstack(&self, columns: Vec<Series>) -> (r: Result<PyDataFrame, TableError>)
        requires
            self.wf(),
            forall|i: int| 0 <= i < columns@.len() ==> (#[trigger] columns@[i]).wf(),
        ensures
            match r {
                Ok(t) => rectangular(self@ + series_views(columns@)) && t.wf() && t@ == self@
                    + series_views(columns@),
                Err(e) => !rectangular(self@ + series_views(columns@)) && e is LengthMismatch,
            },
    {
        let mut t = self.duplicate();
        match t.hstack_mut(columns) {
            Ok(()) => Ok(t),
            Err(e) => Err(e),
        }
    }

    /// Puts `new_col` in place of the column at position `index`. Fails with
    /// `IndexOutOfBounds` when there is no such column, else with
    /// `LengthMismatch` when the lengths would no longer agree; the table is
    /// then left as it was.
    pub fn replace_at_idx(&mut self, index: usize, new_col: Series) -> (r: Result<(), TableError>)
        requires
            old(self).wf(),
            new_col.wf(),
        ensures
            final(self).wf(),
            match r {
                Ok(_) => index < old(self)@.len() && rectangular(old(self)@.update(index as int, new_col@))
                    && final(self)@ == old(self)@.update(index as int, new_col@),
                Err(e) => final(self)@ == old(self)@ && ((index >= old(self)@.len()
                    && e is IndexOutOfBounds) || (index < old(self)@.len() && !rectangular(
                    old(self)@.update(index as int, new_col@),
                ) && e is LengthMismatch)),
            },
    {
        proof { self.lemma_wf(); }
        if index >= self.columns.len() {
            return Err(TableError::IndexOutOfBounds);
        }
        let ghost t = self@;
        let ghost u = t.update(index as int, new_col@);
        if self.columns.len() > 1 && new_col.len() != self.height() {
            assert(!rectangular(u)) by {
                if index == 0 {
                    assert(u[1].values.len() == height_of(t));
                } else {
                    assert(u[index as int].values.len() != height_of(u));
                }
            }
            return Err(TableError::LengthMismatch);
        }
        let ghost before = self.columns@;
        self.columns.set(index, new_col);
        assert(self@ =~= u);
        assert(rectangular(u)) by {
            assert forall|q: int| 0 <= q < u.len() implies (#[trigger] u[q]).values.len() == height_of(u) by {
                if u.len() > 1 {
                    assert(q == index || u[q] == t[q]);
                }
            }
        }
        assert forall|i: int| 0 <= i < self.columns@.len() implies (#[trigger] self.columns@[i]).wf() by {
            if i != index {
                assert(self.columns@[i] == before[i]);
            }
        }
        Ok(())
    }

    /// Puts `new_col` in place of the first column named `column`. Fails
    /// with `ColumnNotFound` when there is none, else as `replace_at_idx`
    /// does.
    pub fn replace(&mut self, column: &String, new_col: Series) -> (r: Result<(), TableError>)
        requires
            old(self).wf(),
            new_col.wf(),
        ensures
            final(self).wf(),
            match r {
                Ok(_) => lookup(old(self)@, column@) >= 0 && final(self)@ == old(self)@.update(
                    lookup(old(self)@, column@),
                    new_col@,
                ),
                Err(e) => final(self)@ == old(self)@ && ((lookup(old(self)@, column@) == -1
                    && e is ColumnNotFound) || (lookup(old(self)@, column@) >= 0 && !rectangular(
                    old(self)@.update(lookup(old(self)@, column@), new_col@),
                ) && e is LengthMismatch)),
            },
    {
        proof { lemma_lookup(self@, column@); }
        match self.find_idx_by_name(column) {
            Some(j) => self.replace_at_idx(j, new_col),
            None => Err(TableError::ColumnNotFound(column.clone())),
        }
    }

    /// Inserts `new_col` at position `index`. Fails with `IndexOutOfBounds`
    /// when `index` is past the width, else with `LengthMismatch` when its
    /// length is not the height; the table is then left as it was.
    pub fn insert_at_idx(&mut self, index: usize, new_col: Series) -> (r: Result<(), TableError>)
        requires
            old(self).wf(),
            new_col.wf(),
        ensures
            final(self).wf(),
            match r {
                Ok(_) => index <= old(self)@.len() && final(self)@ == old(self)@.insert(
                    index as int,
                    new_col@,
                ),
                Err(e) => final(self)@ == old(self)@ && ((index > old(self)@.len()
                    && e is IndexOutOfBounds) || (index <= old(self)@.len() && !rectangular(
                    old(self)@.insert(index as int, new_col@),
                ) && e is LengthMismatch)),
            },
    {
        proof { self.lemma_wf(); }
        if index > self.columns.len() {
            return Err(TableError::IndexOutOfBounds);
        }
        let ghost t = self@;
        let ghost u = t.insert(index as int, new_col@);
        if self.columns.len() > 0 && new_col.len() != self.height() {
            assert(!rectangular(u)) by {
                if index == 0 {
                    assert(u[1].values.len() == height_of(t));
                } else {
                    assert(u[index as int].values.len() != height_of(u));
                }
            }
            return Err(TableError::LengthMismatch);
        }
        let ghost before = self.columns@;
        self.columns.insert(index, new_col);
        assert(self@ =~= u);
        assert(rectangular(u)) by {
            assert forall|q: int| 0 <= q < u.len() implies (#[trigger] u[q]).values.len() == height_of(u) by {
                if q < index {
                    assert(u[q] == t[q]);
                } else if q > index {
                    assert(u[q] == t[q - 1]);
                }
            }
        }
        assert forall|i: int| 0 <= i < self.columns@.len() implies (#[trigger] self.columns@[i]).wf() by {
            if i < index {
                assert(self.columns@[i] == before[i]);
            } else if i > index {
                assert(self.columns@[i] == before[i - 1]);
            }
        }
        Ok(())
    }

    /// Gives the columns the names `names`, in order. Fails with
    /// `LengthMismatch`, leaving the table as it was, when there are not as
    /// many names as columns.
    pub fn set_column_names(&mut self, names: &Vec<String>) -> (r: Result<(), TableError>)
        requires
            old(self).wf(),
        ensures
            final(self).wf(),
            match r {
                Ok(_) => names@.len() == old(self)@.len() && final(self)@.len() == old(self)@.len()
                    && forall|j: int|
                    0 <= j < old(self)@.len() ==> (#[trigger] final(self)@[j]) == (SeriesV {
                        name: names@[j]@,
                        ..old(self)@[j]
                    }),
                Err(e) => names@.len() != old(self)@.len() && e is LengthMismatch && final(self)@
                    == old(self)@,
            },
    {
        if names.len() != self.columns.len() {
            return Err(TableError::LengthMismatch);
        }
        proof { self.lemma_wf(); }
        let ghost before = self@;
        let mut out: Vec<Series> = Vec::new();
        let mut j: usize = 0;
        while j < self.columns.len()
            invariant
                j <= self.columns.len(),
                self.columns@.len() == names@.len(),
                self.wf(),
                before == self@,
                out@.len() == j,
                forall|i: int|
                    0 <= i < j ==> (#[trigger] out@[i]).wf() && out@[i]@ == (SeriesV {
                        name: names@[i]@,
                        ..before[i]
                    }),
            decreases self.columns.len() - j,
        {
            let mut c = self.columns[j].duplicate();
            c.rename(names[j].clone());
            out.push(c);
            j += 1;
        }
        assert(rectangular(series_views(out@))) by {
            assert forall|i: int| 0 <= i < out@.len() implies (#[trigger] series_views(out@)[i]).values.len()
                == height_of(series_views(out@)) by {
                assert(series_views(out@)[i].values == before[i].values);
                assert(series_views(out@)[0].values == before[0].values);
            }
        }
        self.columns = out;
        Ok(())
    }

    /// A copy of this table.
    pub fn clone(&self) -> (r: PyDataFrame)
        requires
            self.wf(),
        ensures
            r.wf(),
            r@ == self@,
    {
        self.duplicate()
    }

    /// The rows at the indices held by the integer column `indices`, in
    /// their order. Fails with `TypeMismatch` when it is not an integer
    /// column or holds a null, else with `IndexOutOfBounds` when an index is
    /// negative or not below the height.
    pub fn take_with_series(&self, indices: &Series) -> (r: Result<PyDataFrame, TableError>)
        requires
            self.wf(),
            indices.wf(),
        ensures
            ({
                let typed = indices@.dtype == DataType::Int64 && forall|k: int|
                    0 <= k < indices@.values.len() ==> !(#[trigger] indices@.values[k] is Null);
                let idx = int_indices(indices@.values);
                match r {
                    Ok(t) => typed && all_below(idx, height_of(self@) as int) && t.wf() && t@
                        == take_spec(self@, idx),
                    Err(e) => (!typed && e is TypeMismatch) || (typed && !all_below(
                        idx,
                        height_of(self@) as int,
                    ) && e is IndexOutOfBounds),
                }
            }),
    {
        if indices.dtype() != DataType::Int64 {
            return Err(TableError::TypeMismatch);
        }
        let cells = indices.to_cells();
        let ghost v = indices@.values;
        let h = self.height();
        let mut k: usize = 0;
        while k < cells.len()
            invariant
                k <= cells.len(),
                cells_view(cells@) == v,
                v == indices@.values,
                indices@.dtype == DataType::Int64,
                forall|q: int| 0 <= q < k ==> !(#[trigger] v[q] is Null),
            decreases cells.len() - k,
        {
            if cells[k].is_null() {
                assert(v[k as int] is Null);
                return Err(TableError::TypeMismatch);
            }
            k += 1;
        }
        proof { indices.lemma_wf(); }
        let mut idx: Vec<usize> = Vec::new();
        let mut k: usize = 0;
        while k < cells.len()
            invariant
                k <= cells.len(),
                cells_view(cells@) == v,
                v == indices@.values,
                indices@.dtype == DataType::Int64,
                h as int == height_of(self@),
                all_fit(v, DataType::Int64),
                forall|q: int| 0 <= q < v.len() ==> !(#[trigger] v[q] is Null),
                idx_view(idx@) == int_indices(v).take(k as int),
                forall|q: int| 0 <= q < k ==> 0 <= #[trigger] int_indices(v)[q] < h,
            decreases cells.len() - k,
        {
            assert(crate::cell::fits(v[k as int], DataType::Int64));
            match &cells[k] {
                Cell::Int(x) => {
                    if *x < 0 || *x as i128 >= h as i128 {
                        assert(!all_below(int_indices(v), h as int)) by {
                            assert(int_indices(v)[k as int] == *x as int);
                        }
                        return Err(TableError::IndexOutOfBounds);
                    }
                    let ghost before = idx@;
                    idx.push(*x as usize);
                    assert(idx_view(idx@) =~= idx_view(before).push(*x as int));
                    assert(int_indices(v).take(k + 1) =~= int_indices(v).take(k as int).push(*x as int));
                },
                _ => {
                    assert(false);
                },
            }
            k += 1;
        }
        assert(int_indices(v).take(k as int) == int_indices(v));
        Ok(self.take_unchecked(&idx))
    }

    /// The name of the column at position `j`.
    pub(crate) fn series_at_name(&self, j: usize) -> (r: String)
        requires
            j < self@.len(),
        ensures
            r@ == self@[j as int].name,
    {
        self.columns[j].name()
    }
}

} // verus!
