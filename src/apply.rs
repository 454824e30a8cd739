//! Applying a caller's transform to the table of each group, one group
//! after the other, and stacking what it returns.

use vstd::prelude::*;

use crate::cell::{cells_view, copy_cells, lemma_cells_view_push, Cell, Value};
use crate::error::TableError;
use crate::frame::{height_of, idx_view, rectangular, same_schema, take_spec, vstack_spec, PyDataFrame};
use crate::groupby::{
    all_found, cols_view, group_index, group_members, grouping, key_cols, lemma_grouping_bounds,
    members, names_view, resolve, row_key,
};
use crate::series::{Series, SeriesV};

verus! {

/// A transform that a caller hands to `groupby_apply`: it receives the
/// table of one group and returns a table, or fails.
pub trait GroupTransform {
    fn call(&mut self, group: PyDataFrame) -> Result<PyDataFrame, TableError>;
}

/// The table of a result, or no columns for a failure.
pub open spec fn ok_view(r: Result<PyDataFrame, TableError>) -> Seq<SeriesV> {
    match r {
        Ok(t) => t@,
        Err(_) => Seq::empty(),
    }
}

/// The tables of a list of results.
pub open spec fn result_views(rs: Seq<Result<PyDataFrame, TableError>>) -> Seq<Seq<SeriesV>> {
    rs.map_values(|r: Result<PyDataFrame, TableError>| ok_view(r))
}

/// Whether one of the results is a failure.
pub open spec fn any_failed(rs: Seq<Result<PyDataFrame, TableError>>) -> bool {
    exists|g: int| 0 <= g < rs.len() && (#[trigger] rs[g]) is Err
}

/// Whether every table among the results is well formed.
pub open spec fn all_wf(rs: Seq<Result<PyDataFrame, TableError>>) -> bool {
    forall|g: int| 0 <= g < rs.len() ==> (#[trigger] rs[g]).is_Ok() ==> rs[g].get_Ok_0().wf()
}

/// Whether every table has the column names and types of the first.
pub open spec fn schemas_agree(ts: Seq<Seq<SeriesV>>) -> bool {
    forall|g: int| 0 <= g < ts.len() ==> same_schema(ts[0], #[trigger] ts[g])
}

/// The tables placed one under the other, in order; no tables give a table
/// without columns.
pub open spec fn stack_all(ts: Seq<Seq<SeriesV>>) -> Seq<SeriesV>
    decreases ts.len(),
{
    if ts.len() == 0 {
        Seq::empty()
    } else if ts.len() == 1 {
        ts[0]
    } else {
        vstack_spec(stack_all(ts.drop_last()), ts.last())
    }
}

/// Whether stacking the tables in order would pass the largest length.
pub open spec fn stack_overflows(ts: Seq<Seq<SeriesV>>) -> bool {
    exists|g: int|
        1 <= g < ts.len() && height_of(stack_all(#[trigger] ts.take(g))) + height_of(ts[g])
            > usize::MAX
}

proof fn lemma_stack_schema(ts: Seq<Seq<SeriesV>>, g: int)
    requires
        1 <= g <= ts.len(),
    ensures
        same_schema(stack_all(ts.take(g)), ts[0]),
    decreases g,
{
    if g > 1 {
        lemma_stack_schema(ts, g - 1);
        assert(ts.take(g).drop_last() == ts.take(g - 1));
    }
}

/// The key of a row, as cells.
fn key_row(kc: &Vec<Vec<Cell>>, row: usize) -> (r: Vec<Cell>)
    requires
        forall|c: int| 0 <= c < kc@.len() ==> row < (#[trigger] kc@[c])@.len(),
    ensures
        cells_view(r@) == row_key(cols_view(kc@), row as int),
{
    let mut out: Vec<Cell> = Vec::new();
    let mut c: usize = 0;
    while c < kc.len()
        invariant
            c <= kc.len(),
            forall|d: int| 0 <= d < kc@.len() ==> row < (#[trigger] kc@[d])@.len(),
            cells_view(out@) == row_key(cols_view(kc@), row as int).take(c as int),
        decreases kc.len() - c,
    {
        proof { lemma_cells_view_push(out@, kc@[c as int]@[row as int]); }
        out.push(kc[c][row].duplicate());
        assert(row_key(cols_view(kc@), row as int).take(c + 1) =~= row_key(
            cols_view(kc@),
            row as int,
        ).take(c as int).push(kc@[c as int]@[row as int]@));
        c += 1;
    }
    assert(row_key(cols_view(kc@), row as int).take(c as int) =~= row_key(
        cols_view(kc@),
        row as int,
    ));
    out
}

/// Whether `r` is the failure of a group with key `key` whose transform
/// failed with `err`.
pub open spec fn failed_with(r: Result<PyDataFrame, TableError>, key: Seq<Value>, err: TableError) -> bool {
    match r {
        Err(TableError::CallbackFailed(k, b)) => cells_view(k@) == key && *b == err,
        _ => false,
    }
}

/// Puts the tables that a transform returned for each group one under the
/// other, in group order. Fails with `CallbackFailed`, carrying the key of
/// the first group whose transform failed and its error, when one failed;
/// else with `SchemaMismatch` when the tables do not all have the same
/// column names and types; else with `LengthMismatch` when a table is not
/// well formed or the result would pass the largest length.
pub fn stack_results(keys: &Vec<Vec<Cell>>, results: Vec<Result<PyDataFrame, TableError>>) -> (r:
    Result<PyDataFrame, TableError>)
    requires
        keys@.len() == results@.len(),
    ensures
        results@.len() == 0 ==> r is Ok,
        any_failed(results@) ==> exists|g: int|
            0 <= g < results@.len() && (forall|h: int| 0 <= h < g ==> (#[trigger] results@[h]) is Ok)
                && results@[g] is Err && failed_with(r, cells_view(keys@[g]@), results@[g]->Err_0),
        match r {
            Ok(t) => !any_failed(results@) && all_wf(results@) && schemas_agree(
                result_views(results@),
            ) && !stack_overflows(result_views(results@)) && t.wf() && t@ == stack_all(
                result_views(results@),
            ),
            Err(e) => (any_failed(results@) && e is CallbackFailed) || (!any_failed(results@) && (
            (!schemas_agree(result_views(results@)) && e is SchemaMismatch) || ((!all_wf(results@)
                || stack_overflows(result_views(results@))) && e is LengthMismatch))),
        },
{
    let ghost rs = results@;
    let ghost ts = result_views(rs);
    let mut g: usize = 0;
    while g < results.len()
        invariant
            g <= results.len(),
            rs == results@,
            keys@.len() == results@.len(),
            forall|h: int| 0 <= h < g ==> (#[trigger] rs[h]) is Ok,
        decreases results.len() - g,
    {
        let failed = match &results[g] {
            Ok(_) => false,
            Err(_) => true,
        };
        if failed {
            assert(rs[g as int] is Err);
            let mut rest = results;
            let taken = rest.remove(g);
            assert(taken == rs[g as int]);
            let out = match taken {
                Err(e) => Err(TableError::CallbackFailed(copy_cells(&keys[g]), Box::new(e))),
                Ok(_) => Err(TableError::LengthMismatch),
            };
            assert(failed_with(out, cells_view(keys@[g as int]@), rs[g as int]->Err_0));
            return out;
        }
        g += 1;
    }
    assert(!any_failed(rs));
    let mut g: usize = 0;
    while g < results.len()
        invariant
            g <= results.len(),
            rs == results@,
            !any_failed(rs),
            forall|h: int| 0 <= h < g ==> (#[trigger] rs[h]).get_Ok_0().wf(),
        decreases results.len() - g,
    {
        match &results[g] {
            Ok(t) => {
                if !t.is_well_formed() {
                    assert(!all_wf(rs));
                    return Err(TableError::LengthMismatch);
                }
            },
            Err(_) => {
                assert(rs[g as int] is Err);
            },
        }
        g += 1;
    }
    assert(all_wf(rs));
    if results.len() == 0 {
        let empty: Vec<Series> = Vec::new();
        assert(empty@.map_values(|s: Series| s@) =~= Seq::<SeriesV>::empty());
        assert(schemas_agree(ts));
        assert(!stack_overflows(ts));
        return Ok(PyDataFrame::from_series(empty));
    }
    let mut acc = match &results[0] {
        Ok(t) => t.duplicate(),
        Err(_) => {
            assert(rs[0] is Err);
            return Err(TableError::LengthMismatch);
        },
    };
    assert(ts.take(1) =~= seq![ts[0]]);
    let mut g: usize = 1;
    while g < results.len()
        invariant
            1 <= g <= results.len(),
            rs == results@,
            ts == result_views(rs),
            !any_failed(rs),
            all_wf(rs),
            acc.wf(),
            acc@ == stack_all(ts.take(g as int)),
            forall|h: int| 0 <= h < g ==> same_schema(ts[0], #[trigger] ts[h]),
            forall|h: int|
                1 <= h < g ==> height_of(stack_all(#[trigger] ts.take(h))) + height_of(ts[h])
                    <= usize::MAX,
        decreases results.len() - g,
    {
        match &results[g] {
            Ok(t) => {
                assert(ts[g as int] == t@);
                let ah = acc.height();
                let th = t.height();
                if th > usize::MAX - ah {
                    assert(stack_overflows(ts));
                    return Err(TableError::LengthMismatch);
                }
                proof { lemma_stack_schema(ts, g as int); }
                let ghost before = acc@;
                match acc.vstack_mut(t) {
                    Ok(()) => {
                        assert forall|j: int| 0 <= j < ts[0].len() implies (#[trigger] ts[0][j]).name
                            == ts[g as int][j].name && ts[0][j].dtype == ts[g as int][j].dtype by {
                            assert(before[j].name == ts[0][j].name);
                            assert(before[j].name == t@[j].name);
                        }
                        assert(same_schema(ts[0], ts[g as int]));
                    },
                    Err(e) => {
                        assert(!schemas_agree(ts));
                        return Err(e);
                    },
                }
                assert(ts.take(g + 1).drop_last() == ts.take(g as int));
            },
            Err(_) => {
                assert(rs[g as int] is Err);
                return Err(TableError::LengthMismatch);
            },
        }
        g += 1;
    }
    assert(ts.take(g as int) == ts);
    Ok(acc)
}

/// The table of each group, in the order in which keys are first met: the
/// rows of the group, in their order.
pub open spec fn group_tables(t: Seq<SeriesV>, ks: Seq<int>) -> Seq<Seq<SeriesV>> {
    let f = grouping(key_cols(t, ks), height_of(t)).0;
    let gid = grouping(key_cols(t, ks), height_of(t)).1;
    Seq::new(f.len(), |g: int| take_spec(t, members(gid, g)))
}

impl PyDataFrame {
    /// The table of each group of rows by the columns named in `by`, in the
    /// order in which keys are first met. Fails with `ColumnNotFound` when a
    /// name is not found.
    pub fn group_frames(&self, by: &Vec<String>) -> (r: Result<Vec<PyDataFrame>, TableError>)
        requires
            self.wf(),
        ensures
            match r {
                Ok(v) => all_found(resolve(self@, names_view(by@))) && v@.len() == group_tables(
                    self@,
                    resolve(self@, names_view(by@)),
                ).len() && forall|g: int|
                    0 <= g < v@.len() ==> (#[trigger] v@[g]).wf() && v@[g]@ == group_tables(
                        self@,
                        resolve(self@, names_view(by@)),
                    )[g],
                Err(e) => e is ColumnNotFound && !all_found(resolve(self@, names_view(by@))),
            },
    {
        let ghost t = self@;
        let ks = match self.resolve_names(by) {
            Ok(ks) => ks,
            Err(e) => return Err(e),
        };
        let ghost kv = idx_view(ks@);
        let kc = self.key_cells(&ks);
        let h = self.height();
        let (firsts, gid) = group_index(&kc, h);
        let ghost goal = group_tables(t, kv);
        let mut out: Vec<PyDataFrame> = Vec::new();
        let mut g: usize = 0;
        while g < firsts.len()
            invariant
                g <= firsts.len(),
                self.wf(),
                t == self@,
                h == height_of(t),
                gid@.len() == h,
                goal == group_tables(t, kv),
                idx_view(firsts@) == grouping(key_cols(t, kv), h as nat).0,
                idx_view(gid@) == grouping(key_cols(t, kv), h as nat).1,
                out@.len() == g,
                forall|i: int| 0 <= i < g ==> (#[trigger] out@[i]).wf() && out@[i]@ == goal[i],
            decreases firsts.len() - g,
        {
            let rows = group_members(&gid, g);
            let sub = self.take_unchecked(&rows);
            out.push(sub);
            g += 1;
        }
        Ok(out)
    }

    /// Groups the rows by the columns named in `by` and calls `f` once for
    /// each group, in the order in which keys are first met, on the table of
    /// that group (as `group_frames` gives it). The first failure of `f`
    /// ends the work; else the tables it returned are placed one under the
    /// other, as `stack_results` does. Fails with `ColumnNotFound` when a
    /// name is not found, and otherwise as `stack_results` does.
    pub fn groupby_apply<F: GroupTransform>(&self, by: &Vec<String>, f: &mut F) -> (r: Result<
        PyDataFrame,
        TableError,
    >)
        requires
            self.wf(),
        ensures
            all_found(resolve(self@, names_view(by@))) && group_tables(
                self@,
                resolve(self@, names_view(by@)),
            ).len() == 0 ==> r is Ok && r->Ok_0@ == Seq::<SeriesV>::empty(),
            match r {
                Ok(t) => all_found(resolve(self@, names_view(by@))) && t.wf() && exists|
                    rs: Seq<Result<PyDataFrame, TableError>>,
                |
                    rs.len() == group_tables(self@, resolve(self@, names_view(by@))).len()
                        && !any_failed(rs) && schemas_agree(result_views(rs)) && t@ == stack_all(
                        result_views(rs),
                    ),
                Err(e) => (e is ColumnNotFound && !all_found(resolve(self@, names_view(by@)))) || (
                all_found(resolve(self@, names_view(by@))) && (e is CallbackFailed
                    || e is SchemaMismatch || e is LengthMismatch)),
            },
    {
        let ghost t = self@;
        let ks = match self.resolve_names(by) {
            Ok(ks) => ks,
            Err(e) => return Err(e),
        };
        let ghost kv = idx_view(ks@);
        let kc = self.key_cells(&ks);
        let h = self.height();
        let (firsts, gid) = group_index(&kc, h);
        proof { lemma_grouping_bounds(cols_view(kc@), h as nat); }
        assert(firsts@.len() == group_tables(t, kv).len());
        let mut keys: Vec<Vec<Cell>> = Vec::new();
        let mut results: Vec<Result<PyDataFrame, TableError>> = Vec::new();
        let mut failed = false;
        let mut g: usize = 0;
        while g < firsts.len() && !failed
            invariant
                g <= firsts.len(),
                self.wf(),
                t == self@,
                h == height_of(t),
                gid@.len() == h,
                forall|c: int| 0 <= c < kc@.len() ==> (#[trigger] kc@[c])@.len() == h,
                idx_view(firsts@) == grouping(cols_view(kc@), h as nat).0,
                forall|i: int| 0 <= i < firsts@.len() ==> (#[trigger] firsts@[i]) < h,
                keys@.len() == results@.len(),
                results@.len() == g,
                !failed ==> !any_failed(results@),
                failed ==> any_failed(results@),
            decreases firsts.len() - g,
        {
            let rows = group_members(&gid, g);
            let sub = self.take_unchecked(&rows);
            let res = f.call(sub);
            failed = match &res {
                Ok(_) => false,
                Err(_) => true,
            };
            keys.push(key_row(&kc, firsts[g]));
            let ghost before = results@;
            results.push(res);
            proof {
                if failed {
                    assert(results@[g as int] is Err);
                } else {
                    assert forall|q: int| 0 <= q < results@.len() implies !(#[trigger] results@[q] is Err) by {
                        if q < g {
                            assert(results@[q] == before[q]);
                        }
                    }
                }
            }
            g += 1;
        }
        let ghost rs = results@;
        let out = stack_results(&keys, results);
        assert(out is Ok ==> !failed && g == firsts.len() && rs.len() == group_tables(t, kv).len());
        out
    }
}

} // verus!
