//! Columns: named, typed, chunked sequences of cells.

use vstd::prelude::*;

use crate::cell::{cells_view, copy_cells, fits, lemma_cells_view_push, Cell, DataType, Value};
use crate::error::TableError;

verus! {

/// A named, typed column whose elements are stored in one or more chunks.
/// Appending a chunk leaves the earlier chunks where they are.
#[derive(Debug)]
pub struct Series {
    name: String,
    dtype: DataType,
    chunks: Vec<Vec<Cell>>,
    len: usize,
}

/// What a column holds: its name, its type and its elements in order, all
/// chunks taken together.
pub struct SeriesV {
    pub name: Seq<char>,
    pub dtype: DataType,
    pub values: Seq<Value>,
}

/// The elements of a sequence of chunks, one chunk after the other.
pub open spec fn chunks_view(c: Seq<Vec<Cell>>) -> Seq<Value> {
    c.map_values(|v: Vec<Cell>| cells_view(v@)).flatten()
}

/// Whether every value of `s` may stand in a column of type `t`.
pub open spec fn all_fit(s: Seq<Value>, t: DataType) -> bool {
    forall|i: int| 0 <= i < s.len() ==> fits(#[trigger] s[i], t)
}

pub proof fn lemma_chunks_view_push(c: Seq<Vec<Cell>>, v: Vec<Cell>)
    ensures
        chunks_view(c.push(v)) == chunks_view(c) + cells_view(v@),
{
    let f = |v: Vec<Cell>| cells_view(v@);
    assert(c.push(v).map_values(f) =~= c.map_values(f).push(cells_view(v@)));
    c.map_values(f).lemma_flatten_push(cells_view(v@));
}

pub proof fn lemma_chunks_view_one(v: Vec<Cell>)
    ensures
        chunks_view(seq![v]) == cells_view(v@),
{
    lemma_chunks_view_push(Seq::empty(), v);
    assert(Seq::<Vec<Cell>>::empty().push(v) == seq![v]);
    assert(chunks_view(Seq::empty()) =~= Seq::<Value>::empty());
    assert(Seq::<Value>::empty() + cells_view(v@) =~= cells_view(v@));
}

impl View for Series {
    type V = SeriesV;

    closed spec fn view(&self) -> SeriesV {
        SeriesV { name: self.name@, dtype: self.dtype, values: chunks_view(self.chunks@) }
    }
}

impl Series {
    /// The stored length agrees with the elements held, and every element
    /// has the column's type.
    pub closed spec fn wf(&self) -> bool {
        self.len as int == self@.values.len() && all_fit(self@.values, self.dtype)
    }

    pub proof fn lemma_wf(&self)
        requires
            self.wf(),
        ensures
            all_fit(self@.values, self@.dtype),
    {
    }

    /// A column of one chunk, taken as it is.
    pub(crate) fn from_cells(name: String, dtype: DataType, values: Vec<Cell>) -> (r: Series)
        requires
            all_fit(cells_view(values@), dtype),
        ensures
            r.wf(),
            r@ == (SeriesV { name: name@, dtype, values: cells_view(values@) }),
            r.n_chunks_spec() == 1,
    {
        proof { lemma_chunks_view_one(values); }
        let n = values.len();
        let mut chunks: Vec<Vec<Cell>> = Vec::new();
        chunks.push(values);
        assert(chunks@ == seq![values]);
        Series { name, dtype, chunks, len: n }
    }

    /// A column of one chunk. Fails with `TypeMismatch` when a non-null
    /// element does not have the column's type.
    pub fn new(name: String, dtype: DataType, values: Vec<Cell>) -> (r: Result<Series, TableError>)
        ensures
            match r {
                Ok(s) => all_fit(cells_view(values@), dtype) && s.wf() && s@ == (SeriesV {
                    name: name@,
                    dtype,
                    values: cells_view(values@),
                }) && s.n_chunks_spec() == 1,
                Err(e) => !all_fit(cells_view(values@), dtype) && e is TypeMismatch,
            },
    {
        let mut i: usize = 0;
        while i < values.len()
            invariant
                i <= values.len(),
                forall|k: int| 0 <= k < i ==> fits(#[trigger] cells_view(values@)[k], dtype),
            decreases values.len() - i,
        {
            if !values[i].fits(dtype) {
                assert(!fits(cells_view(values@)[i as int], dtype));
                return Err(TableError::TypeMismatch);
            }
            i += 1;
        }
        Ok(Series::from_cells(name, dtype, values))
    }

    pub closed spec fn n_chunks_spec(&self) -> nat {
        self.chunks@.len()
    }

    /// The number of elements.
    pub fn len(&self) -> (r: usize)
        requires
            self.wf(),
        ensures
            r as int == self@.values.len(),
    {
        self.len
    }

    pub fn name(&self) -> (r: String)
        ensures
            r@ == self@.name,
    {
        self.name.clone()
    }

    pub fn dtype(&self) -> (r: DataType)
        ensures
            r == self@.dtype,
    {
        self.dtype
    }

    /// The number of chunks the elements are stored in.
    pub fn n_chunks(&self) -> (r: usize)
        ensures
            r == self.n_chunks_spec(),
    {
        self.chunks.len()
    }

    /// Whether the name of this column is `name`.
    pub fn has_name(&self, name: &String) -> (r: bool)
        ensures
            r == (self@.name == name@),
    {
        self.name == *name
    }

    /// Gives the column another name; the elements stay.
    pub fn rename(&mut self, name: String)
        ensures
            final(self)@ == (SeriesV { name: name@, ..old(self)@ }),
            final(self).wf() == old(self).wf(),
            final(self).n_chunks_spec() == old(self).n_chunks_spec(),
    {
        self.name = name;
    }

    /// All elements in order, in one vector.
    pub fn to_cells(&self) -> (r: Vec<Cell>)
        ensures
            cells_view(r@) == self@.values,
    {
        let mut out: Vec<Cell> = Vec::new();
        let mut c: usize = 0;
        while c < self.chunks.len()
            invariant
                c <= self.chunks.len(),
                cells_view(out@) == chunks_view(self.chunks@.take(c as int)),
            decreases self.chunks.len() - c,
        {
            let chunk = &self.chunks[c];
            let ghost before = cells_view(out@);
            let mut j: usize = 0;
            while j < chunk.len()
                invariant
                    j <= chunk.len(),
                    cells_view(out@) == before + cells_view(chunk@.take(j as int)),
                decreases chunk.len() - j,
            {
                proof {
                    lemma_cells_view_push(out@, chunk[j as int]);
                    lemma_cells_view_push(chunk@.take(j as int), chunk[j as int]);
                    assert(chunk@.take(j + 1) == chunk@.take(j as int).push(chunk[j as int]));
                }
                out.push(chunk[j].duplicate());
                j += 1;
            }
            proof {
                assert(chunk@.take(j as int) == chunk@);
                assert(self.chunks@.take(c + 1) == self.chunks@.take(c as int).push(*chunk));
                lemma_chunks_view_push(self.chunks@.take(c as int), *chunk);
            }
            c += 1;
        }
        assert(self.chunks@.take(c as int) == self.chunks@);
        out
    }

    /// A copy of this column that holds its elements in a single chunk.
    pub fn rechunk(&self) -> (r: Series)
        requires
            self.wf(),
        ensures
            r.wf(),
            r@ == self@,
            r.n_chunks_spec() == 1,
    {
        let cells = self.to_cells();
        let r = Series::from_cells(self.name.clone(), self.dtype, cells);
        r
    }

    /// A copy of this column, chunks included.
    pub fn duplicate(&self) -> (r: Series)
        requires
            self.wf(),
        ensures
            r.wf(),
            r@ == self@,
            r.n_chunks_spec() == self.n_chunks_spec(),
    {
        let mut chunks: Vec<Vec<Cell>> = Vec::new();
        let mut c: usize = 0;
        while c < self.chunks.len()
            invariant
                c <= self.chunks.len(),
                chunks@.len() == c,
                chunks_view(chunks@) == chunks_view(self.chunks@.take(c as int)),
            decreases self.chunks.len() - c,
        {
            let v = copy_cells(&self.chunks[c]);
            proof {
                lemma_chunks_view_push(chunks@, v);
                lemma_chunks_view_push(self.chunks@.take(c as int), self.chunks[c as int]);
                assert(self.chunks@.take(c + 1) == self.chunks@.take(c as int).push(
                    self.chunks[c as int],
                ));
            }
            chunks.push(v);
            c += 1;
        }
        assert(self.chunks@.take(c as int) == self.chunks@);
        Series { name: self.name.clone(), dtype: self.dtype, chunks, len: self.len }
    }

    /// Whether the stored length agrees with the elements held.
    pub fn is_consistent(&self) -> (r: bool)
        ensures
            r == self.wf(),
    {
        let mut total: usize = 0;
        let mut c: usize = 0;
        while c < self.chunks.len()
            invariant
                c <= self.chunks.len(),
                total as int == chunks_view(self.chunks@.take(c as int)).len(),
            decreases self.chunks.len() - c,
        {
            proof {
                lemma_chunks_view_push(self.chunks@.take(c as int), self.chunks[c as int]);
                assert(self.chunks@.take(c + 1) == self.chunks@.take(c as int).push(
                    self.chunks[c as int],
                ));
                lemma_chunks_prefix_len(self.chunks@, c + 1);
            }
            if self.chunks[c].len() > usize::MAX - total {
                return false;
            }
            total = total + self.chunks[c].len();
            c += 1;
        }
        assert(self.chunks@.take(c as int) == self.chunks@);
        if total != self.len {
            return false;
        }
        let cells = self.to_cells();
        let mut i: usize = 0;
        while i < cells.len()
            invariant
                i <= cells.len(),
                cells_view(cells@) == self@.values,
                forall|k: int| 0 <= k < i ==> fits(#[trigger] self@.values[k], self.dtype),
            decreases cells.len() - i,
        {
            if !cells[i].fits(self.dtype) {
                assert(!fits(self@.values[i as int], self.dtype));
                return false;
            }
            i += 1;
        }
        true
    }

    /// Adds `chunk` after the elements held, as a chunk of its own. Fails with
    /// `TypeMismatch`, leaving the column as it was, when a non-null element
    /// of `chunk` does not have the column's type.
    pub fn append(&mut self, chunk: Vec<Cell>) -> (r: Result<(), TableError>)
        requires
            old(self).wf(),
            old(self)@.values.len() + chunk@.len() <= usize::MAX,
        ensures
            final(self).wf(),
            match r {
                Ok(_) => all_fit(cells_view(chunk@), old(self)@.dtype) && final(self)@ == (SeriesV {
                    values: old(self)@.values + cells_view(chunk@),
                    ..old(self)@
                }),
                Err(e) => !all_fit(cells_view(chunk@), old(self)@.dtype) && e is TypeMismatch
                    && final(self)@ == old(self)@,
            },
    {
        let mut i: usize = 0;
        while i < chunk.len()
            invariant
                i <= chunk.len(),
                forall|k: int| 0 <= k < i ==> fits(#[trigger] cells_view(chunk@)[k], self.dtype),
                self == old(self),
                self.wf(),
            decreases chunk.len() - i,
        {
            if !chunk[i].fits(self.dtype) {
                assert(!fits(cells_view(chunk@)[i as int], self.dtype));
                return Err(TableError::TypeMismatch);
            }
            i += 1;
        }
        proof { lemma_chunks_view_push(self.chunks@, chunk); }
        self.len = self.len + chunk.len();
        self.chunks.push(chunk);
        Ok(())
    }

    /// Adds the elements of `other` after the elements held, by taking
    /// copies of its chunks. The name and type of `other` are not looked at.
    pub fn append_series(&mut self, other: &Series)
        requires
            old(self).wf(),
            other.wf(),
            other@.dtype == old(self)@.dtype,
            old(self)@.values.len() + other@.values.len() <= usize::MAX,
        ensures
            final(self).wf(),
            final(self)@ == (SeriesV { values: old(self)@.values + other@.values, ..old(self)@ }),
    {
        let mut c: usize = 0;
        let ghost start = self@.values;
        while c < other.chunks.len()
            invariant
                c <= other.chunks.len(),
                self.name@ == old(self)@.name,
                self.dtype == old(self)@.dtype,
                self@.values == start + chunks_view(other.chunks@.take(c as int)),
                self.wf(),
                start == old(self)@.values,
                old(self)@.values.len() + other@.values.len() <= usize::MAX,
                other.wf(),
                other@.dtype == self.dtype,
                all_fit(start, self.dtype),
                all_fit(other@.values, self.dtype),
            decreases other.chunks.len() - c,
        {
            let v = copy_cells(&other.chunks[c]);
            proof {
                lemma_chunks_view_push(self.chunks@, v);
                lemma_chunks_view_push(other.chunks@.take(c as int), other.chunks[c as int]);
                assert(other.chunks@.take(c + 1) == other.chunks@.take(c as int).push(
                    other.chunks[c as int],
                ));
                lemma_chunks_prefix_len(other.chunks@, c as int + 1);
                lemma_chunks_prefix_fit(other.chunks@, c as int + 1, self.dtype);
            }
            self.len = self.len + v.len();
            self.chunks.push(v);
            c += 1;
            let ghost done = chunks_view(other.chunks@.take(c as int));
            assert forall|i: int| 0 <= i < self@.values.len() implies fits(#[trigger] self@.values[i], self.dtype) by {
                if i < start.len() {
                    assert(self@.values[i] == start[i]);
                } else {
                    assert(self@.values[i] == done[i - start.len()]);
                }
            }
        }
        assert(other.chunks@.take(c as int) == other.chunks@);
    }
}

/// Elements picked from a column of type `t` have type `t`.
pub proof fn lemma_fit_pick(vals: Seq<Value>, idx: Seq<int>, t: DataType)
    requires
        all_fit(vals, t),
        forall|k: int| 0 <= k < idx.len() ==> 0 <= #[trigger] idx[k] < vals.len(),
    ensures
        all_fit(idx.map_values(|i: int| vals[i]), t),
{
    let m = idx.map_values(|i: int| vals[i]);
    assert forall|k: int| 0 <= k < m.len() implies fits(#[trigger] m[k], t) by {
        assert(fits(vals[idx[k]], t));
    }
}

/// The elements of a prefix of the chunks are among the elements.
pub proof fn lemma_chunks_prefix_fit(c: Seq<Vec<Cell>>, k: int, t: DataType)
    requires
        0 <= k <= c.len(),
        all_fit(chunks_view(c), t),
    ensures
        all_fit(chunks_view(c.take(k)), t),
{
    let f = |v: Vec<Cell>| cells_view(v@);
    assert(c == c.take(k) + c.skip(k));
    assert(c.map_values(f) =~= c.take(k).map_values(f) + c.skip(k).map_values(f));
    vstd::seq_lib::lemma_flatten_concat(c.take(k).map_values(f), c.skip(k).map_values(f));
    let p = chunks_view(c.take(k));
    assert forall|i: int| 0 <= i < p.len() implies fits(#[trigger] p[i], t) by {
        assert(p[i] == chunks_view(c)[i]);
    }
}

/// The elements of a prefix of the chunks are no more than all the elements.
pub proof fn lemma_chunks_prefix_len(c: Seq<Vec<Cell>>, k: int)
    requires
        0 <= k <= c.len(),
    ensures
        chunks_view(c.take(k)).len() <= chunks_view(c).len(),
{
    let f = |v: Vec<Cell>| cells_view(v@);
    assert(c == c.take(k) + c.skip(k));
    assert(c.map_values(f) =~= c.take(k).map_values(f) + c.skip(k).map_values(f));
    vstd::seq_lib::lemma_flatten_concat(c.take(k).map_values(f), c.skip(k).map_values(f));
}

} // verus!
