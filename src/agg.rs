//! Reductions that grouping applies to a column: count, first, last, sum,
//! min and max, with their meaning over a list of rows.

use vstd::prelude::*;

use crate::cell::{cells_view, fits, Cell, DataType, Value};
use crate::error::TableError;
use crate::frame::idx_view;

verus! {

/// The reductions that grouping can apply to a column. Each gives one value
/// per group.
#[derive(Clone, Copy, Debug, PartialEq, Eq, Structural)]
pub enum Agg {
    /// The number of rows of the group.
    Count,
    /// The value in the first row of the group.
    First,
    /// The value in the last row of the group.
    Last,
    /// The sum of the non-null values; null where all are null.
    Sum,
    /// The least non-null value; null where all are null.
    Min,
    /// The greatest non-null value; null where all are null.
    Max,
    /// The number of distinct values, null counting as one value.
    NUnique,
}

/// The name by which a reduction is asked for.
pub open spec fn agg_name(a: Agg) -> Seq<char> {
    match a {
        Agg::Count => "count"@,
        Agg::First => "first"@,
        Agg::Last => "last"@,
        Agg::Sum => "sum"@,
        Agg::Min => "min"@,
        Agg::Max => "max"@,
        Agg::NUnique => "n_unique"@,
    }
}

/// What is added to a column's name to name its reduced column.
pub open spec fn agg_suffix(a: Agg) -> Seq<char> {
    match a {
        Agg::Count => "_count"@,
        Agg::First => "_first"@,
        Agg::Last => "_last"@,
        Agg::Sum => "_sum"@,
        Agg::Min => "_min"@,
        Agg::Max => "_max"@,
        Agg::NUnique => "_n_unique"@,
    }
}

/// Whether the reduction applies to a column of type `t`: sums and
/// extremes take integer columns only.
pub open spec fn agg_accepts(a: Agg, t: DataType) -> bool {
    match a {
        Agg::Sum | Agg::Min | Agg::Max => t == DataType::Int64,
        _ => true,
    }
}

/// The type of the reduced column.
pub open spec fn agg_dtype(a: Agg, t: DataType) -> DataType {
    match a {
        Agg::Count | Agg::NUnique => DataType::Int64,
        _ => t,
    }
}

/// The sum of the integers found in `vals` at `rows`; nulls add nothing.
pub open spec fn int_sum(vals: Seq<Value>, rows: Seq<int>) -> int
    decreases rows.len(),
{
    if rows.len() == 0 {
        0
    } else {
        int_sum(vals, rows.drop_last()) + match vals[rows.last()] {
            Value::Int(x) => x as int,
            _ => 0,
        }
    }
}

/// Whether an integer is found in `vals` at one of `rows`.
pub open spec fn has_int(vals: Seq<Value>, rows: Seq<int>) -> bool
    decreases rows.len(),
{
    if rows.len() == 0 {
        false
    } else {
        has_int(vals, rows.drop_last()) || vals[rows.last()] is Int
    }
}

/// The least (or, with `greatest`, the greatest) integer found in `vals`
/// at `rows`.
pub open spec fn int_extreme(vals: Seq<Value>, rows: Seq<int>, greatest: bool) -> Option<i64>
    decreases rows.len(),
{
    if rows.len() == 0 {
        None
    } else {
        let p = int_extreme(vals, rows.drop_last(), greatest);
        match vals[rows.last()] {
            Value::Int(x) => match p {
                None => Some(x),
                Some(y) => if (greatest && x > y) || (!greatest && x < y) {
                    Some(x)
                } else {
                    Some(y)
                },
            },
            _ => p,
        }
    }
}

/// Whether the value `v` is found in `vals` at one of `rows`.
pub open spec fn seen_in(vals: Seq<Value>, rows: Seq<int>, v: Value) -> bool {
    exists|q: int| 0 <= q < rows.len() && vals[rows[q]] == v
}

/// The number of distinct values found in `vals` at `rows`.
pub open spec fn distinct_count(vals: Seq<Value>, rows: Seq<int>) -> nat
    decreases rows.len(),
{
    if rows.len() == 0 {
        0
    } else {
        distinct_count(vals, rows.drop_last()) + if seen_in(
            vals,
            rows.drop_last(),
            vals[rows.last()],
        ) {
            0nat
        } else {
            1nat
        }
    }
}

/// Whether the reduction of `vals` at `rows` fits in the column's type:
/// a sum must fit in 64 bits.
pub open spec fn agg_fits(a: Agg, vals: Seq<Value>, rows: Seq<int>) -> bool {
    a == Agg::Sum ==> i64::MIN <= int_sum(vals, rows) <= i64::MAX
}

/// The reduction of the values of `vals` at `rows`.
pub open spec fn reduce(a: Agg, vals: Seq<Value>, rows: Seq<int>) -> Value {
    match a {
        Agg::Count => Value::Int(rows.len() as i64),
        Agg::First => if rows.len() == 0 {
            Value::Null
        } else {
            vals[rows[0]]
        },
        Agg::Last => if rows.len() == 0 {
            Value::Null
        } else {
            vals[rows.last()]
        },
        Agg::Sum => if has_int(vals, rows) {
            Value::Int(int_sum(vals, rows) as i64)
        } else {
            Value::Null
        },
        Agg::Min => match int_extreme(vals, rows, false) {
            Some(x) => Value::Int(x),
            None => Value::Null,
        },
        Agg::Max => match int_extreme(vals, rows, true) {
            Some(x) => Value::Int(x),
            None => Value::Null,
        },
        Agg::NUnique => Value::Int(distinct_count(vals, rows) as i64),
    }
}

/// A reduction over rows of a column of type `t` that takes it has the
/// type of the reduced column.
pub proof fn lemma_reduce_fits(a: Agg, vals: Seq<Value>, rows: Seq<int>, t: DataType)
    requires
        forall|i: int| 0 <= i < vals.len() ==> fits(#[trigger] vals[i], t),
        agg_accepts(a, t),
        forall|k: int| 0 <= k < rows.len() ==> 0 <= #[trigger] rows[k] < vals.len(),
    ensures
        fits(reduce(a, vals, rows), agg_dtype(a, t)),
{
    match a {
        Agg::First => {
            if rows.len() > 0 {
                assert(0 <= rows[0] < vals.len());
            }
        },
        Agg::Last => {
            if rows.len() > 0 {
                assert(0 <= rows[rows.len() - 1] < vals.len());
            }
        },
        _ => {},
    }
}

impl Agg {
    /// The reduction called `name`. Fails with `UnknownAggregation` for any
    /// other name.
    pub fn from_name(name: &str) -> (r: Result<Agg, TableError>)
        ensures
            match r {
                Ok(a) => agg_name(a) == name@,
                Err(e) => e is UnknownAggregation && forall|a: Agg| agg_name(a) != name@,
            },
    {
        let s = name.to_owned();
        proof {
            reveal_strlit("count");
            reveal_strlit("first");
            reveal_strlit("last");
            reveal_strlit("sum");
            reveal_strlit("min");
            reveal_strlit("max");
            reveal_strlit("n_unique");
        }
        if s == "count".to_owned() {
            Ok(Agg::Count)
        } else if s == "first".to_owned() {
            Ok(Agg::First)
        } else if s == "last".to_owned() {
            Ok(Agg::Last)
        } else if s == "sum".to_owned() {
            Ok(Agg::Sum)
        } else if s == "min".to_owned() {
            Ok(Agg::Min)
        } else if s == "max".to_owned() {
            Ok(Agg::Max)
        } else if s == "n_unique".to_owned() {
            Ok(Agg::NUnique)
        } else {
            Err(TableError::UnknownAggregation)
        }
    }

    /// What is added to a column's name to name its reduced column.
    pub fn suffix(&self) -> (r: &'static str)
        ensures
            r@ == agg_suffix(*self),
    {
        match self {
            Agg::Count => "_count",
            Agg::First => "_first",
            Agg::Last => "_last",
            Agg::Sum => "_sum",
            Agg::Min => "_min",
            Agg::Max => "_max",
            Agg::NUnique => "_n_unique",
        }
    }

    /// Whether the reduction applies to a column of type `t`.
    pub fn accepts(&self, t: DataType) -> (r: bool)
        ensures
            r == agg_accepts(*self, t),
    {
        match self {
            Agg::Sum | Agg::Min | Agg::Max => t == DataType::Int64,
            _ => true,
        }
    }

    /// The type of the reduced column.
    pub fn output_dtype(&self, t: DataType) -> (r: DataType)
        ensures
            r == agg_dtype(*self, t),
    {
        match self {
            Agg::Count | Agg::NUnique => DataType::Int64,
            _ => t,
        }
    }
}

/// The reduction of the cells of `vals` at `rows`; `None` where a sum does
/// not fit in 64 bits.
pub fn reduce_rows(a: Agg, vals: &Vec<Cell>, rows: &Vec<usize>) -> (r: Option<Cell>)
    requires
        forall|k: int| 0 <= k < rows@.len() ==> (#[trigger] rows@[k]) < vals@.len(),
        rows@.len() <= i64::MAX,
    ensures
        match r {
            Some(c) => agg_fits(a, cells_view(vals@), idx_view(rows@)) && c@ == reduce(
                a,
                cells_view(vals@),
                idx_view(rows@),
            ),
            None => !agg_fits(a, cells_view(vals@), idx_view(rows@)),
        },
{
    let ghost v = cells_view(vals@);
    let ghost rs = idx_view(rows@);
    match a {
        Agg::Count => {
            assert(rs.len() == rows@.len());
            Some(Cell::Int(rows.len() as i64))
        },
        Agg::First => if rows.len() == 0 {
            Some(Cell::Null)
        } else {
            Some(vals[rows[0]].duplicate())
        },
        Agg::Last => if rows.len() == 0 {
            Some(Cell::Null)
        } else {
            Some(vals[rows[rows.len() - 1]].duplicate())
        },
        Agg::Sum => {
            let mut acc: i128 = 0;
            let mut seen = false;
            let mut k: usize = 0;
            while k < rows.len()
                invariant
                    k <= rows.len(),
                    v == cells_view(vals@),
                    rs == idx_view(rows@),
                    forall|q: int| 0 <= q < rows@.len() ==> (#[trigger] rows@[q]) < vals@.len(),
                    acc == int_sum(v, rs.take(k as int)),
                    seen == has_int(v, rs.take(k as int)),
                    !seen ==> acc == 0,
                    -(k as int) * 0x8000_0000_0000_0000 <= acc <= (k as int) * 0x8000_0000_0000_0000,
                decreases rows.len() - k,
            {
                assert(rs.take(k + 1).drop_last() == rs.take(k as int));
                assert(rs.take(k + 1).last() == rows@[k as int] as int);
                match &vals[rows[k]] {
                    Cell::Int(x) => {
                        acc = acc + *x as i128;
                        seen = true;
                    },
                    _ => {},
                }
                k += 1;
            }
            assert(rs.take(k as int) == rs);
            if !seen {
                Some(Cell::Null)
            } else if acc < i64::MIN as i128 || acc > i64::MAX as i128 {
                None
            } else {
                Some(Cell::Int(acc as i64))
            }
        },
        Agg::NUnique => {
            let mut cnt: usize = 0;
            let mut k: usize = 0;
            while k < rows.len()
                invariant
                    k <= rows.len(),
                    v == cells_view(vals@),
                    rs == idx_view(rows@),
                    forall|q: int| 0 <= q < rows@.len() ==> (#[trigger] rows@[q]) < vals@.len(),
                    cnt == distinct_count(v, rs.take(k as int)),
                    cnt <= k,
                decreases rows.len() - k,
            {
                let ghost pre = rs.take(k as int);
                assert(rs.take(k + 1).drop_last() == pre);
                assert(rs.take(k + 1).last() == rows@[k as int] as int);
                let mut found = false;
                let mut q: usize = 0;
                while q < k
                    invariant
                        q <= k,
                        k < rows.len(),
                        v == cells_view(vals@),
                        rs == idx_view(rows@),
                        pre == rs.take(k as int),
                        forall|i: int| 0 <= i < rows@.len() ==> (#[trigger] rows@[i]) < vals@.len(),
                        found ==> seen_in(v, pre, v[rs[k as int]]),
                        !found ==> forall|i: int| 0 <= i < q ==> v[pre[i]] != v[rs[k as int]],
                    decreases k - q,
                {
                    if vals[rows[q]].same(&vals[rows[k]]) {
                        assert(v[pre[q as int]] == v[rs[k as int]]);
                        found = true;
                    }
                    q += 1;
                }
                if !found {
                    cnt = cnt + 1;
                }
                k += 1;
            }
            assert(rs.take(k as int) == rs);
            Some(Cell::Int(cnt as i64))
        },
        Agg::Min | Agg::Max => {
            let greatest = match a {
                Agg::Max => true,
                _ => false,
            };
            let mut best: Option<i64> = None;
            let mut k: usize = 0;
            while k < rows.len()
                invariant
                    k <= rows.len(),
                    v == cells_view(vals@),
                    rs == idx_view(rows@),
                    forall|q: int| 0 <= q < rows@.len() ==> (#[trigger] rows@[q]) < vals@.len(),
                    best == int_extreme(v, rs.take(k as int), greatest),
                decreases rows.len() - k,
            {
                assert(rs.take(k + 1).drop_last() == rs.take(k as int));
                assert(rs.take(k + 1).last() == rows@[k as int] as int);
                match &vals[rows[k]] {
                    Cell::Int(x) => {
                        best = match best {
                            None => Some(*x),
                            Some(y) => if (greatest && *x > y) || (!greatest && *x < y) {
                                Some(*x)
                            } else {
                                Some(y)
                            },
                        };
                    },
                    _ => {},
                }
                k += 1;
            }
            assert(rs.take(k as int) == rs);
            match best {
                Some(x) => Some(Cell::Int(x)),
                None => Some(Cell::Null),
            }
        },
    }
}

} // verus!
