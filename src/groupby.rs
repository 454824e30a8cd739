//! Grouping rows by key columns, in the order in which keys are first met,
//! and reducing the other columns per group.

use vstd::prelude::*;

use crate::agg::{
    agg_accepts, agg_dtype, agg_fits, agg_name, agg_suffix, lemma_reduce_fits, reduce, reduce_rows, Agg,
};
use crate::cell::{cells_view, lemma_cells_view_push, Cell, DataType, Value};
use crate::frame::take_cells;
use crate::text::concat;
use crate::error::TableError;
use crate::frame::{height_of, idx_view, lemma_lookup, lookup, rectangular, PyDataFrame};
use crate::series::{all_fit, lemma_fit_pick, Series, SeriesV};

verus! {

/// The values of a list of columns, each seen as its elements.
pub open spec fn cols_view(kc: Seq<Vec<Cell>>) -> Seq<Seq<Value>> {
    kc.map_values(|v: Vec<Cell>| cells_view(v@))
}

/// The key of row `i`: the values of the key columns in that row.
pub open spec fn row_key(kc: Seq<Seq<Value>>, i: int) -> Seq<Value> {
    kc.map_values(|c: Seq<Value>| c[i])
}

/// The first group, from `g` on, whose first row has the key of row `i`;
/// -1 where none has.
pub open spec fn find_from(kc: Seq<Seq<Value>>, firsts: Seq<int>, i: int, g: int) -> int
    decreases firsts.len() - g,
{
    if g < 0 || g >= firsts.len() {
        -1
    } else if row_key(kc, firsts[g]) == row_key(kc, i) {
        g
    } else {
        find_from(kc, firsts, i, g + 1)
    }
}

/// The grouping of rows `0..n` by key, in the order in which keys are first
/// met: the first row of each group, and the group of each row.
pub open spec fn grouping(kc: Seq<Seq<Value>>, n: nat) -> (Seq<int>, Seq<int>)
    decreases n,
{
    if n == 0 {
        (Seq::empty(), Seq::empty())
    } else {
        let (f, gid) = grouping(kc, (n - 1) as nat);
        let g = find_from(kc, f, n - 1, 0);
        if g < 0 {
            (f.push(n - 1), gid.push(f.len() as int))
        } else {
            (f, gid.push(g))
        }
    }
}

/// The rows that belong to group `g`, in increasing order.
pub open spec fn members(gid: Seq<int>, g: int) -> Seq<int>
    decreases gid.len(),
{
    if gid.len() == 0 {
        Seq::empty()
    } else if gid.last() == g {
        members(gid.drop_last(), g).push(gid.len() - 1)
    } else {
        members(gid.drop_last(), g)
    }
}

pub proof fn lemma_find_from(kc: Seq<Seq<Value>>, firsts: Seq<int>, i: int, g: int)
    requires
        0 <= g,
    ensures
        -1 <= find_from(kc, firsts, i, g) < firsts.len(),
        find_from(kc, firsts, i, g) >= 0 ==> g <= find_from(kc, firsts, i, g) && row_key(
            kc,
            firsts[find_from(kc, firsts, i, g)],
        ) == row_key(kc, i),
        find_from(kc, firsts, i, g) == -1 ==> forall|h: int|
            g <= h < firsts.len() ==> row_key(kc, #[trigger] firsts[h]) != row_key(kc, i),
    decreases firsts.len() - g,
{
    if g < firsts.len() {
        lemma_find_from(kc, firsts, i, g + 1);
    }
}

/// Each row has a group, each group a first row, and all lie in range.
pub proof fn lemma_grouping_bounds(kc: Seq<Seq<Value>>, n: nat)
    ensures
        grouping(kc, n).1.len() == n,
        forall|i: int|
            0 <= i < n ==> 0 <= #[trigger] grouping(kc, n).1[i] < grouping(kc, n).0.len(),
        forall|g: int|
            0 <= g < grouping(kc, n).0.len() ==> 0 <= #[trigger] grouping(kc, n).0[g] < n,
        grouping(kc, n).0.len() <= n,
    decreases n,
{
    if n > 0 {
        lemma_grouping_bounds(kc, (n - 1) as nat);
        let (f, gid) = grouping(kc, (n - 1) as nat);
        lemma_find_from(kc, f, n - 1, 0);
    }
}

/// Different groups have different keys.
pub proof fn lemma_grouping_distinct(kc: Seq<Seq<Value>>, n: nat)
    ensures
        forall|g1: int, g2: int|
            0 <= g1 < grouping(kc, n).0.len() && 0 <= g2 < grouping(kc, n).0.len() && g1 != g2
                ==> row_key(kc, #[trigger] grouping(kc, n).0[g1]) != row_key(
                kc,
                #[trigger] grouping(kc, n).0[g2],
            ),
    decreases n,
{
    if n > 0 {
        lemma_grouping_distinct(kc, (n - 1) as nat);
        let (f, gid) = grouping(kc, (n - 1) as nat);
        lemma_find_from(kc, f, n - 1, 0);
    }
}

/// The members of a group over a prefix of the rows, one row further on.
pub proof fn lemma_members_push(gid: Seq<int>, i: int, g: int)
    requires
        0 <= i < gid.len(),
    ensures
        members(gid.take(i + 1), g) == if gid[i] == g {
            members(gid.take(i), g).push(i)
        } else {
            members(gid.take(i), g)
        },
{
    assert(gid.take(i + 1).drop_last() == gid.take(i));
}

/// Whether rows `a` and `b` have the same key.
pub(crate) fn keys_equal(kc: &Vec<Vec<Cell>>, a: usize, b: usize) -> (r: bool)
    requires
        forall|c: int| 0 <= c < kc@.len() ==> a < (#[trigger] kc@[c])@.len() && b < kc@[c]@.len(),
    ensures
        r == (row_key(cols_view(kc@), a as int) == row_key(cols_view(kc@), b as int)),
{
    let ghost v = cols_view(kc@);
    let mut c: usize = 0;
    while c < kc.len()
        invariant
            c <= kc.len(),
            v == cols_view(kc@),
            forall|d: int| 0 <= d < kc@.len() ==> a < (#[trigger] kc@[d])@.len() && b < kc@[d]@.len(),
            forall|d: int| 0 <= d < c ==> (#[trigger] v[d])[a as int] == v[d][b as int],
        decreases kc.len() - c,
    {
        if !kc[c][a].same(&kc[c][b]) {
            assert(row_key(v, a as int)[c as int] != row_key(v, b as int)[c as int]);
            return false;
        }
        c += 1;
    }
    assert(row_key(v, a as int) =~= row_key(v, b as int));
    true
}

/// Groups rows `0..n` by key, in the order in which keys are first met: the
/// first row of each group, and the group of each row.
pub(crate) fn group_index(kc: &Vec<Vec<Cell>>, n: usize) -> (r: (Vec<usize>, Vec<usize>))
    requires
        forall|c: int| 0 <= c < kc@.len() ==> (#[trigger] kc@[c])@.len() == n,
    ensures
        idx_view(r.0@) == grouping(cols_view(kc@), n as nat).0,
        idx_view(r.1@) == grouping(cols_view(kc@), n as nat).1,
        r.1@.len() == n,
        forall|i: int| 0 <= i < n ==> (#[trigger] r.1@[i]) < r.0@.len(),
        forall|g: int| 0 <= g < r.0@.len() ==> (#[trigger] r.0@[g]) < n,
        r.0@.len() <= n,
{
    let ghost v = cols_view(kc@);
    let mut firsts: Vec<usize> = Vec::new();
    let mut gid: Vec<usize> = Vec::new();
    let mut i: usize = 0;
    while i < n
        invariant
            i <= n,
            v == cols_view(kc@),
            forall|c: int| 0 <= c < kc@.len() ==> (#[trigger] kc@[c])@.len() == n,
            idx_view(firsts@) == grouping(v, i as nat).0,
            idx_view(gid@) == grouping(v, i as nat).1,
            gid@.len() == i,
            forall|k: int| 0 <= k < i ==> (#[trigger] gid@[k]) < firsts@.len(),
            firsts@.len() <= i,
        decreases n - i,
    {
        proof {
            lemma_grouping_bounds(v, i as nat);
            lemma_find_from(v, idx_view(firsts@), i as int, 0);
        }
        let ghost f = idx_view(firsts@);
        let mut g: usize = 0;
        let mut found = false;
        while !found && g < firsts.len()
            invariant
                g <= firsts.len(),
                f == idx_view(firsts@),
                forall|c: int| 0 <= c < kc@.len() ==> (#[trigger] kc@[c])@.len() == n,
                v == cols_view(kc@),
                i < n,
                forall|h: int| 0 <= h < f.len() ==> 0 <= #[trigger] f[h] < i,
                !found ==> find_from(v, f, i as int, 0) == find_from(v, f, i as int, g as int),
                found ==> g < firsts.len() && find_from(v, f, i as int, 0) == g,
            decreases firsts.len() - g + if found { 0int } else { 1int },
        {
            assert(f[g as int] == firsts@[g as int] as int);
            if keys_equal(kc, firsts[g], i) {
                found = true;
            } else {
                g += 1;
            }
        }
        if found {
            gid.push(g);
        } else {
            assert(find_from(v, f, i as int, g as int) == -1);
            gid.push(firsts.len());
            firsts.push(i);
        }
        proof {
            assert(idx_view(firsts@) =~= grouping(v, (i + 1) as nat).0);
            assert(idx_view(gid@) =~= grouping(v, (i + 1) as nat).1);
        }
        i += 1;
    }
    proof { lemma_grouping_bounds(v, n as nat); }
    assert forall|g: int| 0 <= g < firsts@.len() implies (#[trigger] firsts@[g]) < n by {
        assert(idx_view(firsts@)[g] == firsts@[g] as int);
    }
    (firsts, gid)
}

/// The rows of group `g`, in increasing order.
pub(crate) fn group_members(gid: &Vec<usize>, g: usize) -> (r: Vec<usize>)
    ensures
        idx_view(r@) == members(idx_view(gid@), g as int),
        forall|k: int| 0 <= k < r@.len() ==> (#[trigger] r@[k]) < gid@.len(),
        r@.len() <= gid@.len(),
{
    let ghost s = idx_view(gid@);
    let mut out: Vec<usize> = Vec::new();
    let mut i: usize = 0;
    while i < gid.len()
        invariant
            i <= gid.len(),
            s == idx_view(gid@),
            idx_view(out@) == members(s.take(i as int), g as int),
            forall|k: int| 0 <= k < out@.len() ==> (#[trigger] out@[k]) < i,
            out@.len() <= i,
        decreases gid.len() - i,
    {
        proof { lemma_members_push(s, i as int, g as int); }
        if gid[i] == g {
            out.push(i);
            assert(idx_view(out@) =~= members(s.take(i as int), g as int).push(i as int));
        }
        i += 1;
    }
    assert(s.take(i as int) == s);
    out
}

/// Names seen as their characters.
pub open spec fn names_view(v: Seq<String>) -> Seq<Seq<char>> {
    v.map_values(|s: String| s@)
}

/// The position of the first column of each name; -1 for a name not found.
pub open spec fn resolve(t: Seq<SeriesV>, names: Seq<Seq<char>>) -> Seq<int> {
    names.map_values(|n: Seq<char>| lookup(t, n))
}

/// Whether every name was found.
pub open spec fn all_found(ks: Seq<int>) -> bool {
    forall|p: int| 0 <= p < ks.len() ==> #[trigger] ks[p] >= 0
}

/// The positions below `n` that are not among `ks`, in increasing order.
pub open spec fn others(n: nat, ks: Seq<int>) -> Seq<int>
    decreases n,
{
    if n == 0 {
        Seq::empty()
    } else if ks.contains(n - 1) {
        others((n - 1) as nat, ks)
    } else {
        others((n - 1) as nat, ks).push(n - 1)
    }
}

/// The columns to reduce: those named in `select`, or else every column
/// that is not a key.
pub open spec fn selection(t: Seq<SeriesV>, ks: Seq<int>, select: Option<Vec<String>>) -> Seq<
    int,
> {
    match select {
        Some(names) => resolve(t, names_view(names@)),
        None => others(t.len(), ks),
    }
}

/// The values of the key columns.
pub open spec fn key_cols(t: Seq<SeriesV>, ks: Seq<int>) -> Seq<Seq<Value>> {
    ks.map_values(|j: int| t[j].values)
}

/// Every selected column takes the reduction.
pub open spec fn all_accept(t: Seq<SeriesV>, sel: Seq<int>, a: Agg) -> bool {
    forall|p: int| 0 <= p < sel.len() ==> agg_accepts(a, (#[trigger] t[sel[p]]).dtype)
}

/// Every reduction of every group fits in its column's type.
pub open spec fn groups_fit(t: Seq<SeriesV>, ks: Seq<int>, sel: Seq<int>, a: Agg) -> bool {
    let gid = grouping(key_cols(t, ks), height_of(t)).1;
    let n = grouping(key_cols(t, ks), height_of(t)).0.len();
    forall|p: int, g: int|
        0 <= p < sel.len() && 0 <= g < n ==> #[trigger] fits_at(t, sel, gid, a, p, g)
}

/// The reduction of selected column `p` over group `g` fits in its type.
pub open spec fn fits_at(t: Seq<SeriesV>, sel: Seq<int>, gid: Seq<int>, a: Agg, p: int, g: int) -> bool {
    agg_fits(a, t[sel[p]].values, members(gid, g))
}

/// One row per group, in the order keys are first met: the key columns with
/// the group's key, then for each selected column its reduction over the
/// group, named after the column and the reduction.
pub open spec fn groupby_spec(t: Seq<SeriesV>, ks: Seq<int>, sel: Seq<int>, a: Agg) -> Seq<SeriesV> {
    let f = grouping(key_cols(t, ks), height_of(t)).0;
    let gid = grouping(key_cols(t, ks), height_of(t)).1;
    ks.map_values(|j: int| SeriesV { values: f.map_values(|r: int| t[j].values[r]), ..t[j] })
        + sel.map_values(
        |j: int|
            SeriesV {
                name: t[j].name + agg_suffix(a),
                dtype: agg_dtype(a, t[j].dtype),
                values: Seq::new(f.len(), |g: int| reduce(a, t[j].values, members(gid, g))),
            },
    )
}

/// The positions below `n` that are not among `ks`.
pub(crate) fn other_positions(n: usize, ks: &Vec<usize>) -> (r: Vec<usize>)
    ensures
        idx_view(r@) == others(n as nat, idx_view(ks@)),
        forall|p: int| 0 <= p < r@.len() ==> (#[trigger] r@[p]) < n,
{
    let ghost kv = idx_view(ks@);
    let mut out: Vec<usize> = Vec::new();
    let mut j: usize = 0;
    while j < n
        invariant
            j <= n,
            kv == idx_view(ks@),
            idx_view(out@) == others(j as nat, kv),
            forall|p: int| 0 <= p < out@.len() ==> (#[trigger] out@[p]) < j,
        decreases n - j,
    {
        let mut p: usize = 0;
        let mut hit = false;
        while p < ks.len()
            invariant
                p <= ks.len(),
                kv == idx_view(ks@),
                !hit ==> forall|q: int| 0 <= q < p ==> kv[q] != j,
                hit ==> kv.contains(j as int),
            decreases ks.len() - p,
        {
            assert(kv[p as int] == ks@[p as int] as int);
            if ks[p] == j {
                hit = true;
            }
            p += 1;
        }
        assert(hit == kv.contains(j as int));
        if !hit {
            out.push(j);
            assert(idx_view(out@) =~= others(j as nat, kv).push(j as int));
        }
        j += 1;
    }
    out
}

impl PyDataFrame {
    /// The position of the first column of each name. Fails with
    /// `ColumnNotFound` when a name is not found.
    pub(crate) fn resolve_names(&self, names: &Vec<String>) -> (r: Result<Vec<usize>, TableError>)
        ensures
            match r {
                Ok(ks) => idx_view(ks@) == resolve(self@, names_view(names@)) && all_found(
                    idx_view(ks@),
                ) && forall|p: int| 0 <= p < ks@.len() ==> (#[trigger] ks@[p]) < self@.len(),
                Err(e) => e is ColumnNotFound && !all_found(resolve(self@, names_view(names@))),
            },
    {
        let ghost rv = resolve(self@, names_view(names@));
        let mut ks: Vec<usize> = Vec::new();
        let mut p: usize = 0;
        while p < names.len()
            invariant
                p <= names.len(),
                rv == resolve(self@, names_view(names@)),
                idx_view(ks@) == rv.take(p as int),
                forall|q: int| 0 <= q < ks@.len() ==> (#[trigger] ks@[q]) < self@.len(),
            decreases names.len() - p,
        {
            proof { lemma_lookup(self@, names@[p as int]@); }
            match self.find_idx_by_name(&names[p]) {
                Some(j) => {
                    assert(rv[p as int] == j as int);
                    let ghost before = ks@;
                    ks.push(j);
                    assert(ks@ == before.push(j));
                    assert(idx_view(ks@) =~= idx_view(before).push(j as int));
                    assert(rv.take(p + 1) =~= rv.take(p as int).push(rv[p as int]));
                },
                None => {
                    assert(rv[p as int] == -1);
                    return Err(TableError::ColumnNotFound(names[p].clone()));
                },
            }
            p += 1;
        }
        assert(rv.take(p as int) == rv);
        Ok(ks)
    }

    /// The elements of the columns at positions `ks`.
    pub(crate) fn key_cells(&self, ks: &Vec<usize>) -> (r: Vec<Vec<Cell>>)
        requires
            self.wf(),
            forall|p: int| 0 <= p < ks@.len() ==> (#[trigger] ks@[p]) < self@.len(),
        ensures
            cols_view(r@) == key_cols(self@, idx_view(ks@)),
            r@.len() == ks@.len(),
            forall|c: int| 0 <= c < r@.len() ==> (#[trigger] r@[c])@.len() == height_of(self@),
    {
        proof { self.lemma_wf(); }
        let mut out: Vec<Vec<Cell>> = Vec::new();
        let mut p: usize = 0;
        while p < ks.len()
            invariant
                p <= ks.len(),
                self.wf(),
                rectangular(self@),
                forall|q: int| 0 <= q < ks@.len() ==> (#[trigger] ks@[q]) < self@.len(),
                out@.len() == p,
                forall|q: int|
                    0 <= q < p ==> cells_view((#[trigger] out@[q])@) == self@[ks@[q] as int].values,
            decreases ks.len() - p,
        {
            out.push(self.series_at(ks[p]).to_cells());
            p += 1;
        }
        assert(cols_view(out@) =~= key_cols(self@, idx_view(ks@)));
        out
    }

    /// The key columns at the first row of each group.
    pub(crate) fn key_part(&self, ks: &Vec<usize>, firsts: &Vec<usize>) -> (r: Vec<Series>)
        requires
            self.wf(),
            forall|q: int| 0 <= q < ks@.len() ==> (#[trigger] ks@[q]) < self@.len(),
            forall|g: int| 0 <= g < firsts@.len() ==> (#[trigger] firsts@[g]) < height_of(self@),
        ensures
            r@.len() == ks@.len(),
            forall|q: int|
                0 <= q < ks@.len() ==> (#[trigger] r@[q]).wf() && r@[q]@ == (SeriesV {
                    values: idx_view(firsts@).map_values(|x: int| self@[ks@[q] as int].values[x]),
                    ..self@[ks@[q] as int]
                }),
    {
        proof { self.lemma_wf(); }
        let mut out: Vec<Series> = Vec::new();
        let mut p: usize = 0;
        while p < ks.len()
            invariant
                p <= ks.len(),
                self.wf(),
                rectangular(self@),
                forall|q: int| 0 <= q < ks@.len() ==> (#[trigger] ks@[q]) < self@.len(),
                forall|g: int| 0 <= g < firsts@.len() ==> (#[trigger] firsts@[g]) < height_of(self@),
                out@.len() == p,
                forall|q: int|
                    0 <= q < p ==> (#[trigger] out@[q]).wf() && out@[q]@ == (SeriesV {
                        values: idx_view(firsts@).map_values(|x: int| self@[ks@[q] as int].values[x]),
                        ..self@[ks@[q] as int]
                    }),
            decreases ks.len() - p,
        {
            let col = self.series_at(ks[p]);
            let cells = col.to_cells();
            assert forall|g: int| 0 <= g < idx_view(firsts@).len() implies 0 <= #[trigger] idx_view(firsts@)[g] < cells@.len() by {
                assert(firsts@[g] < height_of(self@));
            }
            let taken = take_cells(&cells, firsts);
            proof {
                col.lemma_wf();
                lemma_fit_pick(cells_view(cells@), idx_view(firsts@), col@.dtype);
            }
            out.push(Series::from_cells(col.name(), col.dtype(), taken));
            p += 1;
        }
        out
    }

    /// Groups the rows by the columns named in `by` and reduces each column
    /// named in `select` (every other column when `select` is `None`) with
    /// the reduction called `agg`. Fails with `UnknownAggregation` for an
    /// unknown reduction name, and otherwise as `groupby_with` does.
    pub fn groupby(&self, by: &Vec<String>, select: Option<Vec<String>>, agg: &str) -> (r: Result<
        PyDataFrame,
        TableError,
    >)
        requires
            self.wf(),
            height_of(self@) <= i64::MAX,
        ensures
            match r {
                Ok(t) => exists|a: Agg|
                    agg_name(a) == agg@ && groupby_ok(self@, by@, select, a) && t.wf() && t@
                        == groupby_spec(
                        self@,
                        resolve(self@, names_view(by@)),
                        selection(self@, resolve(self@, names_view(by@)), select),
                        a,
                    ),
                Err(e) => (e is UnknownAggregation && forall|a: Agg| agg_name(a) != agg@) || exists|
                    a: Agg,
                | agg_name(a) == agg@ && groupby_err(self@, by@, select, a, e),
            },
    {
        match Agg::from_name(agg) {
            Ok(a) => self.groupby_with(by, select, a),
            Err(e) => Err(e),
        }
    }

    /// Groups the rows by the columns named in `by` and, for each pair of a
    /// column name and a list of reduction names, adds one reduced column
    /// per reduction (see `request_column`), after the key columns. Fails
    /// only as `agg_request_err` says: with `ColumnNotFound` for a missing
    /// key or requested column, `UnknownAggregation` for an unknown
    /// reduction name, `TypeMismatch` for a column that does not take its
    /// reduction, `InvalidArgument` for a sum that does not fit.
    pub fn groupby_agg(&self, by: &Vec<String>, column_to_agg: &Vec<(String, Vec<String>)>) -> (r:
        Result<PyDataFrame, TableError>)
        requires
            self.wf(),
            height_of(self@) <= i64::MAX,
        ensures
            ({
                let ks = resolve(self@, names_view(by@));
                let reqs = agg_requests(column_to_agg@);
                match r {
                    Ok(t) => all_found(ks) && t.wf() && t@.len() == ks.len() + reqs.len() && t@.take(
                        ks.len() as int,
                    ) == groupby_spec(self@, ks, Seq::empty(), Agg::Count) && forall|q: int|
                        0 <= q < reqs.len() ==> request_ok(self@, ks, #[trigger] reqs[q]) && t@[ks.len()
                            + q] == request_column(self@, ks, reqs[q]),
                    Err(e) => agg_request_err(self@, ks, reqs, e),
                }
            }),
    {
        let ghost t = self@;
        let ghost ks = resolve(t, names_view(by@));
        let ghost reqs = agg_requests(column_to_agg@);
        let ghost parts = column_to_agg@.map_values(
            |p: (String, Vec<String>)| p.1@.map_values(|a: String| (p.0@, a@)),
        );
        let none: Vec<String> = Vec::new();
        assert(resolve(t, names_view(none@)) =~= Seq::<int>::empty());
        let keys = match self.groupby_with(by, Some(none), Agg::Count) {
            Ok(k) => k,
            Err(e) => return Err(e),
        };
        let ghost kv = keys@;
        assert(kv =~= groupby_spec(t, ks, Seq::empty(), Agg::Count));
        let mut out = keys.get_columns();
        let nk = keys.width();
        assert(ks.len() == out@.len() && nk == ks.len());
        let mut p: usize = 0;
        while p < column_to_agg.len()
            invariant
                p <= column_to_agg.len(),
                self.wf(),
                t == self@,
                height_of(t) <= i64::MAX,
                ks == resolve(t, names_view(by@)),
                all_found(ks),
                nk == ks.len(),
                reqs == agg_requests(column_to_agg@),
                parts == column_to_agg@.map_values(
                    |p: (String, Vec<String>)| p.1@.map_values(|a: String| (p.0@, a@)),
                ),
                kv == groupby_spec(t, ks, Seq::empty(), Agg::Count),
                out@.len() == ks.len() + parts.take(p as int).flatten().len(),
                forall|i: int| 0 <= i < out@.len() ==> (#[trigger] out@[i]).wf(),
                forall|i: int| 0 <= i < ks.len() ==> (#[trigger] out@[i])@ == kv[i],
                forall|q: int|
                    0 <= q < parts.take(p as int).flatten().len() ==> request_ok(
                        t,
                        ks,
                        #[trigger] parts.take(p as int).flatten()[q],
                    ) && out@[ks.len() + q]@ == request_column(
                        t,
                        ks,
                        parts.take(p as int).flatten()[q],
                    ),
            decreases column_to_agg.len() - p,
        {
            let ghost done = parts.take(p as int).flatten();
            let ghost cur = parts[p as int];
            let ghost rest = parts.skip(p + 1).flatten();
            proof {
                assert(parts =~= parts.take(p as int) + parts.skip(p as int));
                vstd::seq_lib::lemma_flatten_concat(parts.take(p as int), parts.skip(p as int));
                assert(parts.skip(p as int).drop_first() =~= parts.skip(p + 1));
                assert(parts.skip(p as int).first() == cur);
                assert(parts.skip(p as int).flatten() == cur + rest);
                assert(reqs =~= done + cur + rest);
            }
            let name = &column_to_agg[p].0;
            let aggs = &column_to_agg[p].1;
            assert(cur == aggs@.map_values(|a: String| (name@, a@)));
            let mut k: usize = 0;
            while k < aggs.len()
                invariant
                    k <= aggs.len(),
                    self.wf(),
                    t == self@,
                    height_of(t) <= i64::MAX,
                    ks == resolve(t, names_view(by@)),
                    all_found(ks),
                    nk == ks.len(),
                    kv == groupby_spec(t, ks, Seq::empty(), Agg::Count),
                    cur == aggs@.map_values(|a: String| (name@, a@)),
                    reqs == done + cur + rest,
                    reqs == agg_requests(column_to_agg@),
                    out@.len() == ks.len() + done.len() + k,
                    forall|i: int| 0 <= i < out@.len() ==> (#[trigger] out@[i]).wf(),
                    forall|i: int| 0 <= i < ks.len() ==> (#[trigger] out@[i])@ == kv[i],
                    forall|q: int|
                        0 <= q < (done + cur.take(k as int)).len() ==> request_ok(
                            t,
                            ks,
                            #[trigger] (done + cur.take(k as int))[q],
                        ) && out@[ks.len() + q]@ == request_column(
                            t,
                            ks,
                            (done + cur.take(k as int))[q],
                        ),
                decreases aggs.len() - k,
            {
                let ghost qi = done.len() + k;
                assert(reqs[qi] == (name@, aggs@[k as int]@));
                let a = match Agg::from_name(aggs[k].as_str()) {
                    Ok(a) => a,
                    Err(e) => {
                        assert(parse_agg(reqs[qi].1) is None) by {
                            if parse_agg(aggs@[k as int]@) is Some {
                                lemma_parse_agg(parse_agg(aggs@[k as int]@).unwrap());
                            }
                        }
                        return Err(e);
                    },
                };
                proof { lemma_parse_agg(a); }
                let mut sel: Vec<String> = Vec::new();
                sel.push(name.clone());
                proof { lemma_lookup(t, name@); }
                assert(names_view(sel@) =~= seq![name@]);
                assert(resolve(t, names_view(sel@)) =~= seq![lookup(t, name@)]);
                let g = match self.groupby_with(by, Some(sel), a) {
                    Ok(g) => g,
                    Err(e) => {
                        assert(agg_request_err(t, ks, reqs, e));
                        return Err(e);
                    },
                };
                let c = match g.select_at_idx(nk) {
                    Some(c) => c,
                    None => return Err(TableError::ColumnNotFound(name.clone())),
                };
                assert(parse_agg(aggs@[k as int]@) == Some(a));
                assert(request_ok(t, ks, reqs[qi]));
                let ghost before = out@;
                out.push(c);
                assert((done + cur.take(k + 1)) =~= (done + cur.take(k as int)).push(
                    (name@, aggs@[k as int]@),
                ));
                assert forall|q: int| 0 <= q < (done + cur.take(k + 1)).len() implies request_ok(
                    t,
                    ks,
                    #[trigger] (done + cur.take(k + 1))[q],
                ) && out@[ks.len() + q]@ == request_column(t, ks, (done + cur.take(k + 1))[q]) by {
                    if q < (done + cur.take(k as int)).len() {
                        assert(out@[ks.len() + q] == before[ks.len() + q]);
                    }
                }
                k += 1;
            }
            proof {
                assert(cur.take(k as int) == cur);
                assert(parts.take(p + 1) == parts.take(p as int).push(cur));
                parts.take(p as int).lemma_flatten_push(cur);
            }
            p += 1;
        }
        assert(parts.take(p as int) == parts);
        let ghost ov = out@.map_values(|s: Series| s@);
        assert(ov.take(ks.len() as int) =~= kv);
        let ghost n = grouping(key_cols(t, ks), height_of(t)).0.len();
        assert forall|i: int| 0 <= i < ov.len() implies (#[trigger] ov[i]).values.len() == n by {
            if i >= ks.len() {
                let q = i - ks.len();
                assert(ov[i] == request_column(t, ks, reqs[q]));
            } else {
                assert(ov[i] == kv[i]);
            }
        }
        assert(rectangular(ov)) by {
            if ov.len() > 0 {
                assert(ov[0].values.len() == n);
            }
        }
        Ok(PyDataFrame::from_series(out))
    }

    /// Groups the rows by the columns named in `by`, keys in the order in
    /// which they are first met, and reduces each column named in `select`
    /// (every column that is not a key when `select` is `None`) with `a`.
    /// Fails with `ColumnNotFound` when a name is not found, else with
    /// `TypeMismatch` when a selected column does not take the reduction,
    /// else with `InvalidArgument` when a sum does not fit in 64 bits.
    pub fn groupby_with(&self, by: &Vec<String>, select: Option<Vec<String>>, a: Agg) -> (r:
        Result<PyDataFrame, TableError>)
        requires
            self.wf(),
            height_of(self@) <= i64::MAX,
        ensures
            match r {
                Ok(t) => groupby_ok(self@, by@, select, a) && t.wf() && t@ == groupby_spec(
                    self@,
                    resolve(self@, names_view(by@)),
                    selection(self@, resolve(self@, names_view(by@)), select),
                    a,
                ),
                Err(e) => groupby_err(self@, by@, select, a, e),
            },
    {
        let ghost t = self@;
        proof { self.lemma_wf(); }
        let ks = match self.resolve_names(by) {
            Ok(ks) => ks,
            Err(e) => return Err(e),
        };
        let ghost kv = idx_view(ks@);
        let sel = match &select {
            None => other_positions(self.width(), &ks),
            Some(names) => match self.resolve_names(names) {
                Ok(s) => s,
                Err(e) => return Err(e),
            },
        };
        let ghost sv = idx_view(sel@);
        assert(sv == selection(t, kv, select));
        assert(all_found(sv));
        let mut p: usize = 0;
        while p < sel.len()
            invariant
                p <= sel.len(),
                self.wf(),
                t == self@,
                sv == idx_view(sel@),
                kv == resolve(t, names_view(by@)),
                sv == selection(t, kv, select),
                all_found(kv),
                all_found(sv),
                forall|q: int| 0 <= q < sel@.len() ==> (#[trigger] sel@[q]) < t.len(),
                forall|q: int| 0 <= q < p ==> agg_accepts(a, (#[trigger] t[sv[q]]).dtype),
            decreases sel.len() - p,
        {
            if !a.accepts(self.series_at(sel[p]).dtype()) {
                assert(!agg_accepts(a, t[sv[p as int]].dtype));
                assert(!all_accept(t, sv, a));
                return Err(TableError::TypeMismatch);
            }
            p += 1;
        }
        assert(all_accept(t, sv, a));
        let kc = self.key_cells(&ks);
        let h = self.height();
        let (firsts, gid) = group_index(&kc, h);
        let ghost f = idx_view(firsts@);
        let ghost gv = idx_view(gid@);
        let ghost goal = groupby_spec(t, kv, sv, a);
        proof { lemma_grouping_bounds(key_cols(t, kv), h as nat); }
        assert forall|g: int| 0 <= g < firsts@.len() implies (#[trigger] firsts@[g]) < h by {
            assert(f[g] == firsts@[g] as int);
        }
        let mut out: Vec<Series> = Vec::new();
        let mut p: usize = 0;
        while p < ks.len()
            invariant
                p <= ks.len(),
                self.wf(),
                rectangular(t),
                t == self@,
                h == height_of(t),
                kv == idx_view(ks@),
                goal == groupby_spec(t, kv, sv, a),
                f == idx_view(firsts@),
                f == grouping(key_cols(t, kv), h as nat).0,
                forall|q: int| 0 <= q < ks@.len() ==> (#[trigger] ks@[q]) < t.len(),
                forall|g: int| 0 <= g < firsts@.len() ==> (#[trigger] firsts@[g]) < h,
                out@.len() == p,
                forall|q: int|
                    0 <= q < p ==> (#[trigger] out@[q]).wf() && out@[q]@ == goal[q] && out@[q]@.values.len()
                        == firsts@.len(),
            decreases ks.len() - p,
        {
            let col = self.series_at(ks[p]);
            let cells = col.to_cells();
            assert forall|g: int| 0 <= g < idx_view(firsts@).len() implies 0 <= #[trigger] idx_view(firsts@)[g] < cells@.len() by {
                assert(firsts@[g] < h);
            }
            let taken = take_cells(&cells, &firsts);
            proof {
                col.lemma_wf();
                lemma_fit_pick(cells_view(cells@), idx_view(firsts@), col@.dtype);
            }
            let s = Series::from_cells(col.name(), col.dtype(), taken);
            assert(s@.values =~= goal[p as int].values);
            out.push(s);
            p += 1;
        }
        let mut p: usize = 0;
        while p < sel.len()
            invariant
                p <= sel.len(),
                self.wf(),
                rectangular(t),
                t == self@,
                h == height_of(t),
                h <= i64::MAX,
                kv == idx_view(ks@),
                sv == idx_view(sel@),
                all_found(kv),
                all_found(sv),
                all_accept(t, sv, a),
                kv == resolve(t, names_view(by@)),
                sv == selection(t, kv, select),
                goal == groupby_spec(t, kv, sv, a),
                f == idx_view(firsts@),
                f == grouping(key_cols(t, kv), h as nat).0,
                gv == idx_view(gid@),
                gv == grouping(key_cols(t, kv), h as nat).1,
                gid@.len() == h,
                forall|q: int| 0 <= q < sel@.len() ==> (#[trigger] sel@[q]) < t.len(),
                out@.len() == ks@.len() + p,
                forall|q: int|
                    0 <= q < ks@.len() + p ==> (#[trigger] out@[q]).wf() && out@[q]@ == goal[q]
                        && out@[q]@.values.len() == firsts@.len(),
                forall|q: int, g: int|
                    0 <= q < p && 0 <= g < f.len() ==> #[trigger] fits_at(t, sv, gv, a, q, g),
            decreases sel.len() - p,
        {
            let col = self.series_at(sel[p]);
            let cells = col.to_cells();
            proof { col.lemma_wf(); }
            let mut vals: Vec<Cell> = Vec::new();
            let mut g: usize = 0;
            while g < firsts.len()
                invariant
                    g <= firsts.len(),
                    all_fit(t[sv[p as int]].values, t[sv[p as int]].dtype),
                    agg_accepts(a, t[sv[p as int]].dtype),
                    all_fit(cells_view(vals@), agg_dtype(a, t[sv[p as int]].dtype)),
                    p < sel.len(),
                    sv == idx_view(sel@),
                    t == self@,
                    h == height_of(t),
                    kv == resolve(t, names_view(by@)),
                    sv == selection(t, kv, select),
                    all_found(kv),
                    all_found(sv),
                    all_accept(t, sv, a),
                    f == idx_view(firsts@),
                    f == grouping(key_cols(t, kv), h as nat).0,
                    gv == grouping(key_cols(t, kv), h as nat).1,
                    h == cells@.len(),
                    h <= i64::MAX,
                    gid@.len() == h,
                    gv == idx_view(gid@),
                    cells_view(cells@) == t[sv[p as int]].values,
                    vals@.len() == g,
                    forall|k: int|
                        0 <= k < g ==> (#[trigger] vals@[k])@ == reduce(
                            a,
                            t[sv[p as int]].values,
                            members(gv, k),
                        ),
                    forall|k: int|
                        0 <= k < g ==> agg_fits(a, t[sv[p as int]].values, #[trigger] members(gv, k)),
                decreases firsts.len() - g,
            {
                let rows = group_members(&gid, g);
                match reduce_rows(a, &cells, &rows) {
                    Some(c) => {
                        proof {
                            lemma_reduce_fits(a, cells_view(cells@), idx_view(rows@), t[sv[p as int]].dtype);
                            lemma_cells_view_push(vals@, c);
                        }
                        vals.push(c);
                    },
                    None => {
                        assert(!fits_at(t, sv, gv, a, p as int, g as int));
                        assert(!groups_fit(t, kv, sv, a));
                        return Err(TableError::InvalidArgument);
                    },
                }
                g += 1;
            }
            assert forall|g: int| 0 <= g < f.len() implies #[trigger] fits_at(t, sv, gv, a, p as int, g) by {}
            let name = concat(&col.name(), a.suffix());
            let s = Series::from_cells(name, a.output_dtype(col.dtype()), vals);
            assert(s@.values =~= goal[ks@.len() + p].values);
            assert(s@ == goal[ks@.len() + p]);
            out.push(s);
            p += 1;
        }
        let ghost ov = out@.map_values(|s: Series| s@);
        assert(ov =~= goal);
        assert(groups_fit(t, kv, sv, a));
        Ok(PyDataFrame::from_series(out))
    }
}

/// The reduction called `name`, if any.
pub open spec fn parse_agg(name: Seq<char>) -> Option<Agg> {
    if name == agg_name(Agg::Count) {
        Some(Agg::Count)
    } else if name == agg_name(Agg::First) {
        Some(Agg::First)
    } else if name == agg_name(Agg::Last) {
        Some(Agg::Last)
    } else if name == agg_name(Agg::Sum) {
        Some(Agg::Sum)
    } else if name == agg_name(Agg::Min) {
        Some(Agg::Min)
    } else if name == agg_name(Agg::Max) {
        Some(Agg::Max)
    } else if name == agg_name(Agg::NUnique) {
        Some(Agg::NUnique)
    } else {
        None
    }
}

/// Each reduction is found again from its name.
pub proof fn lemma_parse_agg(a: Agg)
    ensures
        parse_agg(agg_name(a)) == Some(a),
{
    reveal_strlit("count");
    reveal_strlit("first");
    reveal_strlit("last");
    reveal_strlit("sum");
    reveal_strlit("min");
    reveal_strlit("max");
    reveal_strlit("n_unique");
    assert("n_unique"@[0] == 'n');
    assert("count"@[0] == 'c' && "first"@[0] == 'f' && "last"@[0] == 'l' && "sum"@[0] == 's');
    assert("min"@[0] == 'm' && "max"@[0] == 'm' && "min"@[1] == 'i' && "max"@[1] == 'a');
    match a {
        Agg::Count => {},
        Agg::First => {},
        Agg::Last => {},
        Agg::Sum => {},
        Agg::Min => {},
        Agg::Max => {},
        Agg::NUnique => {},
    }
}

/// The (column name, reduction name) pairs asked for, in order.
pub open spec fn agg_requests(v: Seq<(String, Vec<String>)>) -> Seq<(Seq<char>, Seq<char>)> {
    v.map_values(
        |p: (String, Vec<String>)| p.1@.map_values(|a: String| (p.0@, a@)),
    ).flatten()
}

/// Whether one request can be served: its reduction name is known, its
/// column is found and takes the reduction, and every sum fits.
pub open spec fn request_ok(t: Seq<SeriesV>, ks: Seq<int>, req: (Seq<char>, Seq<char>)) -> bool {
    let j = lookup(t, req.0);
    &&& parse_agg(req.1) is Some
    &&& j >= 0
    &&& agg_accepts(parse_agg(req.1).unwrap(), t[j].dtype)
    &&& groups_fit(t, ks, seq![j], parse_agg(req.1).unwrap())
}

/// The error that `groupby_agg` reports, and the requests that cause it.
pub open spec fn agg_request_err(t: Seq<SeriesV>, ks: Seq<int>, reqs: Seq<(Seq<char>, Seq<char>)>, e: TableError) -> bool {
    ||| e is ColumnNotFound && (!all_found(ks) || exists|q: int|
        0 <= q < reqs.len() && lookup(t, (#[trigger] reqs[q]).0) == -1)
    ||| e is UnknownAggregation && exists|q: int|
        0 <= q < reqs.len() && parse_agg((#[trigger] reqs[q]).1) is None
    ||| e is TypeMismatch && exists|q: int|
        0 <= q < reqs.len() && parse_agg((#[trigger] reqs[q]).1) is Some && lookup(t, reqs[q].0) >= 0
            && !agg_accepts(parse_agg(reqs[q].1).unwrap(), t[lookup(t, reqs[q].0)].dtype)
    ||| e is InvalidArgument && exists|q: int|
        0 <= q < reqs.len() && parse_agg((#[trigger] reqs[q]).1) is Some && lookup(t, reqs[q].0) >= 0
            && !groups_fit(t, ks, seq![lookup(t, reqs[q].0)], parse_agg(reqs[q].1).unwrap())
}

/// The reduced column for one request: the column named `req.0` reduced
/// with the reduction named `req.1` over the groups of `ks`.
pub open spec fn request_column(t: Seq<SeriesV>, ks: Seq<int>, req: (Seq<char>, Seq<char>)) -> SeriesV {
    groupby_spec(t, ks, seq![lookup(t, req.0)], parse_agg(req.1).unwrap())[ks.len() as int]
}

/// The conditions under which grouping succeeds.
pub open spec fn groupby_ok(t: Seq<SeriesV>, by: Seq<String>, select: Option<Vec<String>>, a: Agg) -> bool {
    let ks = resolve(t, names_view(by));
    let sel = selection(t, ks, select);
    all_found(ks) && all_found(sel) && all_accept(t, sel, a) && groups_fit(t, ks, sel, a)
}

/// The error that grouping reports, and the inputs on which it comes.
pub open spec fn groupby_err(
    t: Seq<SeriesV>,
    by: Seq<String>,
    select: Option<Vec<String>>,
    a: Agg,
    e: TableError,
) -> bool {
    let ks = resolve(t, names_view(by));
    let sel = selection(t, ks, select);
    ||| e is ColumnNotFound && (!all_found(ks) || !all_found(sel))
    ||| e is TypeMismatch && all_found(ks) && all_found(sel) && !all_accept(t, sel, a)
    ||| e is InvalidArgument && all_found(ks) && all_found(sel) && all_accept(t, sel, a)
        && !groups_fit(t, ks, sel, a)
}

} // verus!
