//! Bucketing a time column into fixed windows, with grouping and sorting.

use vstd::prelude::*;

use crate::agg::{agg_name, Agg};
use crate::cell::{cells_view, lemma_cells_view_push, Cell, DataType, Value};
use crate::error::TableError;
use crate::frame::{height_of, lemma_lookup, lookup, rectangular, take_spec, PyDataFrame};
use crate::groupby::{
    groupby_err, groupby_ok, groupby_spec, grouping, key_cols, lemma_grouping_distinct, names_view,
    resolve, row_key, selection,
};
use crate::series::{Series, SeriesV};
use crate::sort::{precedes, sort_order};

verus! {

/// The width of a time bucket: a count of seconds, minutes, hours or days,
/// on a time column that counts milliseconds.
#[derive(Clone, Copy, Debug, PartialEq, Eq, Structural)]
pub enum SampleRule {
    Second(u32),
    Minute(u32),
    Hour(u32),
    Day(u32),
}

pub open spec fn rule_name(r: SampleRule) -> Seq<char> {
    match r {
        SampleRule::Second(_) => "second"@,
        SampleRule::Minute(_) => "minute"@,
        SampleRule::Hour(_) => "hour"@,
        SampleRule::Day(_) => "day"@,
    }
}

/// The width of a bucket in milliseconds.
pub open spec fn rule_width(r: SampleRule) -> int {
    match r {
        SampleRule::Second(n) => n * 1000,
        SampleRule::Minute(n) => n * 60_000,
        SampleRule::Hour(n) => n * 3_600_000,
        SampleRule::Day(n) => n * 86_400_000,
    }
}

/// The start of the bucket of width `w` that holds `x`: the greatest
/// multiple of `w` that is not above `x`.
pub open spec fn bucket(x: int, w: int) -> int {
    if x >= 0 {
        x - x % w
    } else if (-x) % w == 0 {
        x
    } else {
        x - (w - (-x) % w)
    }
}

/// A time value replaced by the start of its bucket; null where that start
/// does not fit in 64 bits, and for nulls.
pub open spec fn bucket_value(v: Value, w: int) -> Value {
    match v {
        Value::Int(x) => if bucket(x as int, w) >= i64::MIN {
            Value::Int(bucket(x as int, w) as i64)
        } else {
            Value::Null
        },
        _ => Value::Null,
    }
}

/// The table with column `j` replaced by the starts of its buckets.
pub open spec fn bucketed(t: Seq<SeriesV>, j: int, w: int) -> Seq<SeriesV> {
    t.update(
        j,
        SeriesV { values: t[j].values.map_values(|v: Value| bucket_value(v, w)), ..t[j] },
    )
}

impl SampleRule {
    /// The rule called `name` with count `n`. Fails with `InvalidArgument`
    /// for any other name, and for a count of zero.
    pub fn from_name(name: &str, n: u32) -> (r: Result<SampleRule, TableError>)
        ensures
            match r {
                Ok(rule) => rule_name(rule) == name@ && n > 0 && rule_width(rule) == rule_width(
                    match rule {
                        SampleRule::Second(_) => SampleRule::Second(n),
                        SampleRule::Minute(_) => SampleRule::Minute(n),
                        SampleRule::Hour(_) => SampleRule::Hour(n),
                        SampleRule::Day(_) => SampleRule::Day(n),
                    },
                ),
                Err(e) => e is InvalidArgument && (n == 0 || forall|rule: SampleRule|
                    rule_name(rule) != name@),
            },
    {
        if n == 0 {
            return Err(TableError::InvalidArgument);
        }
        let s = name.to_owned();
        proof {
            reveal_strlit("second");
            reveal_strlit("minute");
            reveal_strlit("hour");
            reveal_strlit("day");
        }
        if s == "second".to_owned() {
            Ok(SampleRule::Second(n))
        } else if s == "minute".to_owned() {
            Ok(SampleRule::Minute(n))
        } else if s == "hour".to_owned() {
            Ok(SampleRule::Hour(n))
        } else if s == "day".to_owned() {
            Ok(SampleRule::Day(n))
        } else {
            Err(TableError::InvalidArgument)
        }
    }

    /// The width of a bucket in milliseconds.
    pub fn width(&self) -> (r: i128)
        ensures
            r == rule_width(*self),
            0 <= r <= 0x1_0000_0000 * 86_400_000,
    {
        match self {
            SampleRule::Second(n) => *n as i128 * 1000,
            SampleRule::Minute(n) => *n as i128 * 60_000,
            SampleRule::Hour(n) => *n as i128 * 3_600_000,
            SampleRule::Day(n) => *n as i128 * 86_400_000,
        }
    }
}

fn bucket_cell(c: &Cell, w: i128) -> (r: Cell)
    requires
        0 < w <= 0x1_0000_0000 * 86_400_000,
    ensures
        r@ == bucket_value(c@, w as int),
{
    match c {
        Cell::Int(x) => {
            let x = *x as i128;
            let b: i128 = if x >= 0 {
                x - x % w
            } else if (-x) % w == 0 {
                x
            } else {
                x - (w - (-x) % w)
            };
            if b >= i64::MIN as i128 {
                Cell::Int(b as i64)
            } else {
                Cell::Null
            }
        },
        _ => Cell::Null,
    }
}

impl PyDataFrame {
    /// Buckets the rows by the time column named `by` into windows of
    /// `rule`'s width, groups by bucket start, reduces every other column
    /// with `agg`, and sorts the groups by bucket start. Fails with
    /// `InvalidArgument` for an unknown rule name or a zero count, with
    /// `UnknownAggregation` for an unknown reduction name, with
    /// `ColumnNotFound` when `by` is not a column, with `TypeMismatch` when
    /// it is not an integer column, and otherwise as grouping does.
    pub fn downsample(&self, by: &String, rule: &str, n: u32, agg: &str) -> (r: Result<
        PyDataFrame,
        TableError,
    >)
        requires
            self.wf(),
            height_of(self@) <= i64::MAX,
        ensures
            (n == 0 || forall|rl: SampleRule| rule_name(rl) != rule@) ==> (r is Err
                && r->Err_0 is InvalidArgument),
            r is Ok ==> r->Ok_0@.len() > 0 && forall|a: int, b: int|
                0 <= a < b < r->Ok_0@[0].values.len() ==> precedes(
                    #[trigger] r->Ok_0@[0].values[a],
                    #[trigger] r->Ok_0@[0].values[b],
                    false,
                ),
            match r {
                Ok(t) => exists|rl: SampleRule, a: Agg, g: Seq<SeriesV>, perm: Seq<int>|
                    rule_name(rl) == rule@ && rule_width(rl) > 0 && agg_name(a) == agg@ && lookup(
                        self@,
                        by@,
                    ) >= 0 && g == groupby_spec(
                        bucketed(self@, lookup(self@, by@), rule_width(rl)),
                        resolve(
                            bucketed(self@, lookup(self@, by@), rule_width(rl)),
                            seq![by@],
                        ),
                        selection(
                            bucketed(self@, lookup(self@, by@), rule_width(rl)),
                            resolve(
                                bucketed(self@, lookup(self@, by@), rule_width(rl)),
                                seq![by@],
                            ),
                            None,
                        ),
                        a,
                    ) && sort_order(g[0].values, perm, false) && t.wf() && t@ == take_spec(
                        g,
                        perm,
                    ),
                Err(e) => (e is InvalidArgument && (n == 0 || forall|rl: SampleRule|
                    rule_name(rl) != rule@)) || (e is UnknownAggregation && forall|a: Agg|
                    agg_name(a) != agg@) || (e is ColumnNotFound && lookup(self@, by@) == -1) || (
                e is TypeMismatch && lookup(self@, by@) >= 0 && self@[lookup(self@, by@)].dtype
                    != DataType::Int64) || exists|rl: SampleRule, a: Agg|
                    rule_name(rl) == rule@ && rule_width(rl) > 0 && agg_name(a) == agg@ && lookup(
                        self@,
                        by@,
                    ) >= 0 && groupby_err(
                        bucketed(self@, lookup(self@, by@), rule_width(rl)),
                        seq![*by],
                        None,
                        a,
                        e,
                    ),
            },
    {
        let rl = match SampleRule::from_name(rule, n) {
            Ok(rl) => rl,
            Err(e) => return Err(e),
        };
        let a = match Agg::from_name(agg) {
            Ok(a) => a,
            Err(e) => return Err(e),
        };
        proof {
            lemma_lookup(self@, by@);
            self.lemma_wf();
        }
        let j = match self.find_idx_by_name(by) {
            Some(j) => j,
            None => return Err(TableError::ColumnNotFound(by.clone())),
        };
        let col = self.series_at(j);
        if col.dtype() != DataType::Int64 {
            return Err(TableError::TypeMismatch);
        }
        let w = rl.width();
        let cells = col.to_cells();
        let ghost src = self@[j as int].values;
        let mut vals: Vec<Cell> = Vec::new();
        let mut i: usize = 0;
        while i < cells.len()
            invariant
                i <= cells.len(),
                0 < w <= 0x1_0000_0000 * 86_400_000,
                cells_view(cells@) == src,
                vals@.len() == i,
                forall|k: int| 0 <= k < i ==> (#[trigger] cells_view(vals@)[k]) == bucket_value(src[k], w as int),
            decreases cells.len() - i,
        {
            let c = bucket_cell(&cells[i], w);
            proof { lemma_cells_view_push(vals@, c); }
            vals.push(c);
            i += 1;
        }
        let bcol = Series::from_cells(col.name(), col.dtype(), vals);
        let ghost bt = bucketed(self@, j as int, w as int);
        assert(bcol@ == bt[j as int]) by {
            assert(bcol@.values =~= bt[j as int].values);
        }
        let mut t2 = self.duplicate();
        match t2.replace_at_idx(j, bcol) {
            Ok(()) => {},
            Err(e) => return Err(e),
        }
        assert(t2@ =~= bt);
        let mut keys: Vec<String> = Vec::new();
        keys.push(by.clone());
        assert(keys@ =~= seq![*by]);
        assert(names_view(keys@) =~= seq![by@]);
        let g = match t2.groupby_with(&keys, None, a) {
            Ok(g) => g,
            Err(e) => {
                assert(groupby_err(t2@, keys@, None, a, e));
                return Err(e);
            },
        };
        let ghost gv = g@;
        proof { lemma_lookup(t2@, by@); }
        assert(resolve(t2@, names_view(keys@)) =~= seq![lookup(t2@, by@)]);
        assert(g@.len() > 0);
        let kname = by.clone();
        proof { lemma_lookup(g@, kname@); }
        assert(g@[0].name == by@);
        assert(g@[0].dtype == DataType::Int64);
        let out = match g.sort(&kname, false) {
            Ok(o) => o,
            Err(e) => {
                assert(false);
                return Err(e);
            },
        };
        assert(lookup(g@, by@) == 0);
        proof {
            let gv = g@;
            let perm = choose|perm: Seq<int>| sort_order(gv[0].values, perm, false) && out@ == take_spec(gv, perm);
            let kc = key_cols(bt, seq![j as int]);
            let f = grouping(kc, height_of(bt)).0;
            lemma_grouping_distinct(kc, height_of(bt));
            crate::groupby::lemma_grouping_bounds(kc, height_of(bt));
            assert(height_of(bt) == height_of(self@));
            assert(resolve(bt, seq![by@]) == seq![j as int]);
            assert(gv[0].values == f.map_values(|r: int| bt[j as int].values[r]));
            let vs = gv[0].values;
            assert forall|a: int, b: int| 0 <= a < b < out@[0].values.len() implies precedes(
                #[trigger] out@[0].values[a],
                #[trigger] out@[0].values[b],
                false,
            ) by {
                let pa = perm[a];
                let pb = perm[b];
                assert(!precedes(vs[pb], vs[pa], false) && (!precedes(vs[pa], vs[pb], false) ==> pa < pb));
                assert(0 <= f[pa] < height_of(bt) && 0 <= f[pb] < height_of(bt));
                assert(bt[j as int].values.len() == self@[j as int].values.len());
                assert(vs[pa] == bucket_value(self@[j as int].values[f[pa]], w as int));
                assert(vs[pb] == bucket_value(self@[j as int].values[f[pb]], w as int));
                assert(out@[0].values[a] == vs[pa] && out@[0].values[b] == vs[pb]);
                assert(0 <= pa < vs.len() && 0 <= pb < vs.len());
                if pa == pb {
                    assert(!precedes(vs[pa], vs[pb], false));
                } else {
                    assert(row_key(kc, f[pa]) != row_key(kc, f[pb]));
                    assert(row_key(kc, f[pa]) =~= seq![vs[pa]]);
                    assert(row_key(kc, f[pb]) =~= seq![vs[pb]]);
                    assert(vs[pa] != vs[pb]);
                }
            }
        }
        Ok(out)
    }
}

} // verus!
