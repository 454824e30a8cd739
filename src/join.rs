//! Inner, left and outer joins of two tables on paired key columns.

use vstd::prelude::*;

use crate::cell::{cells_view, lemma_cells_view_push, Cell, DataType, Value};
use crate::error::TableError;
use crate::frame::{height_of, idx_view, rectangular, PyDataFrame};
use crate::groupby::{
    all_found, cols_view, key_cols, names_view, resolve, row_key,
};
use crate::series::{all_fit, Series, SeriesV};
use crate::cell::fits;

verus! {

/// How rows without a partner are treated by a join.
#[derive(Clone, Copy, Debug, PartialEq, Eq, Structural)]
pub enum JoinType {
    /// Only rows that found a partner.
    Inner,
    /// Every left row, with nulls on the right where it found no partner.
    Left,
    /// Every left row as for `Left`, then every right row that no left row
    /// matched, with nulls on the left.
    Outer,
}

/// The name by which a join kind is asked for.
pub open spec fn join_name(k: JoinType) -> Seq<char> {
    match k {
        JoinType::Inner => "inner"@,
        JoinType::Left => "left"@,
        JoinType::Outer => "outer"@,
    }
}

/// The right rows below `m` whose key equals the key of left row `l`, in
/// increasing order.
pub open spec fn matches_of(lk: Seq<Seq<Value>>, rk: Seq<Seq<Value>>, l: int, m: nat) -> Seq<int>
    decreases m,
{
    if m == 0 {
        Seq::empty()
    } else if row_key(rk, m - 1) == row_key(lk, l) {
        matches_of(lk, rk, l, (m - 1) as nat).push(m - 1)
    } else {
        matches_of(lk, rk, l, (m - 1) as nat)
    }
}

/// The pairs (left row, right row) found by probing left rows `0..n`
/// against right rows `0..m`, in left order then right order. With
/// `keep`, a left row without partner gives the pair (row, -1).
pub open spec fn probe_pairs(keep: bool, lk: Seq<Seq<Value>>, rk: Seq<Seq<Value>>, n: nat, m: nat) -> Seq<
    (int, int),
>
    decreases n,
{
    if n == 0 {
        Seq::empty()
    } else {
        let prev = probe_pairs(keep, lk, rk, (n - 1) as nat, m);
        let ms = matches_of(lk, rk, n - 1, m);
        if ms.len() == 0 && keep {
            prev.push((n - 1, -1))
        } else {
            prev + ms.map_values(|r: int| (n - 1, r))
        }
    }
}

/// Whether some left row below `n` has the key of right row `r`.
pub open spec fn has_match(lk: Seq<Seq<Value>>, n: nat, rk: Seq<Seq<Value>>, r: int) -> bool {
    exists|l: int| 0 <= l < n && row_key(lk, l) == row_key(rk, r)
}

/// The right rows below `m` that no left row below `n` matches.
pub open spec fn unmatched_right(lk: Seq<Seq<Value>>, rk: Seq<Seq<Value>>, n: nat, m: nat) -> Seq<int>
    decreases m,
{
    if m == 0 {
        Seq::empty()
    } else if has_match(lk, n, rk, m - 1) {
        unmatched_right(lk, rk, n, (m - 1) as nat)
    } else {
        unmatched_right(lk, rk, n, (m - 1) as nat).push(m - 1)
    }
}

/// The row pairs of a join, -1 standing for a missing side.
pub open spec fn join_pairs(kind: JoinType, lk: Seq<Seq<Value>>, rk: Seq<Seq<Value>>, n: nat, m: nat) -> Seq<
    (int, int),
> {
    match kind {
        JoinType::Inner => probe_pairs(false, lk, rk, n, m),
        JoinType::Left => probe_pairs(true, lk, rk, n, m),
        JoinType::Outer => probe_pairs(true, lk, rk, n, m) + unmatched_right(lk, rk, n, m).map_values(
            |r: int| (-1, r),
        ),
    }
}

/// The first place `q`, from `from` on, at which `ks[q] == j`; -1 where none is.
pub open spec fn key_slot(ks: Seq<int>, j: int, from: int) -> int
    decreases ks.len() - from,
{
    if from < 0 || from >= ks.len() {
        -1
    } else if ks[from] == j {
        from
    } else {
        key_slot(ks, j, from + 1)
    }
}

pub proof fn lemma_key_slot(ks: Seq<int>, j: int, from: int)
    requires
        0 <= from,
    ensures
        key_slot(ks, j, from) == -1 || (from <= key_slot(ks, j, from) < ks.len() && ks[key_slot(
            ks,
            j,
            from,
        )] == j),
    decreases ks.len() - from,
{
    if from < ks.len() && ks[from] != j {
        lemma_key_slot(ks, j, from + 1);
    }
}

/// Whether right column `j` is a right key paired with a left key of the
/// same name: such a column is left out of the join, the left key standing
/// for both.
pub open spec fn right_dropped(t: Seq<SeriesV>, u: Seq<SeriesV>, lks: Seq<int>, rks: Seq<int>, j: int) -> bool {
    exists|q: int| 0 <= q < rks.len() && rks[q] == j && #[trigger] u[j].name == t[lks[q]].name
}

/// The right columns below `n` that the join keeps, in order.
pub open spec fn right_kept(t: Seq<SeriesV>, u: Seq<SeriesV>, lks: Seq<int>, rks: Seq<int>, n: nat) -> Seq<int>
    decreases n,
{
    if n == 0 {
        Seq::empty()
    } else if right_dropped(t, u, lks, rks, n - 1) {
        right_kept(t, u, lks, rks, (n - 1) as nat)
    } else {
        right_kept(t, u, lks, rks, (n - 1) as nat).push(n - 1)
    }
}

/// The value of left column `j` in the joined row of pair `p`. A row that
/// has no left side takes, in a key column, the value of the right key
/// it is paired with; else null.
pub open spec fn left_value(
    t: Seq<SeriesV>,
    u: Seq<SeriesV>,
    lks: Seq<int>,
    rks: Seq<int>,
    j: int,
    p: (int, int),
) -> Value {
    if p.0 >= 0 {
        t[j].values[p.0]
    } else if key_slot(lks, j, 0) >= 0 && p.1 >= 0 {
        u[rks[key_slot(lks, j, 0)]].values[p.1]
    } else {
        Value::Null
    }
}

/// The joined table: every left column, then every right column but the
/// right keys whose name is that of their left key, one row per pair.
pub open spec fn join_spec(
    t: Seq<SeriesV>,
    u: Seq<SeriesV>,
    lks: Seq<int>,
    rks: Seq<int>,
    pairs: Seq<(int, int)>,
) -> Seq<SeriesV> {
    Seq::new(
        t.len(),
        |j: int|
            SeriesV {
                values: pairs.map_values(|p: (int, int)| left_value(t, u, lks, rks, j, p)),
                ..t[j]
            },
    ) + right_kept(t, u, lks, rks, u.len()).map_values(
        |j: int|
            SeriesV {
                values: pairs.map_values(
                    |p: (int, int)|
                        if p.1 >= 0 {
                            u[j].values[p.1]
                        } else {
                            Value::Null
                        },
                ),
                ..u[j]
            },
    )
}

/// Optional row indices, -1 standing for none.
pub open spec fn opt_view(v: Seq<Option<usize>>) -> Seq<int> {
    v.map_values(|o: Option<usize>| if let Some(i) = o { i as int } else { -1 })
}

/// Pairs of optional row indices.
pub open spec fn pairs_view(a: Seq<Option<usize>>, b: Seq<Option<usize>>) -> Seq<(int, int)> {
    Seq::new(a.len(), |k: int| (opt_view(a)[k], opt_view(b)[k]))
}

/// Whether left row `l` and right row `r` have equal keys.
fn keys_match(lk: &Vec<Vec<Cell>>, l: usize, rk: &Vec<Vec<Cell>>, r: usize) -> (res: bool)
    requires
        lk@.len() == rk@.len(),
        forall|c: int| 0 <= c < lk@.len() ==> l < (#[trigger] lk@[c])@.len(),
        forall|c: int| 0 <= c < rk@.len() ==> r < (#[trigger] rk@[c])@.len(),
    ensures
        res == (row_key(cols_view(lk@), l as int) == row_key(cols_view(rk@), r as int)),
{
    let ghost a = cols_view(lk@);
    let ghost b = cols_view(rk@);
    let mut c: usize = 0;
    while c < lk.len()
        invariant
            c <= lk.len(),
            lk@.len() == rk@.len(),
            a == cols_view(lk@),
            b == cols_view(rk@),
            forall|d: int| 0 <= d < lk@.len() ==> l < (#[trigger] lk@[d])@.len(),
            forall|d: int| 0 <= d < rk@.len() ==> r < (#[trigger] rk@[d])@.len(),
            forall|d: int| 0 <= d < c ==> (#[trigger] a[d])[l as int] == b[d][r as int],
        decreases lk.len() - c,
    {
        if !lk[c][l].same(&rk[c][r]) {
            assert(row_key(a, l as int)[c as int] != row_key(b, r as int)[c as int]);
            return false;
        }
        c += 1;
    }
    assert(row_key(a, l as int) =~= row_key(b, r as int));
    true
}

/// Every index present lies below `n`.
pub open spec fn opts_below(v: Seq<Option<usize>>, n: int) -> bool {
    forall|k: int| 0 <= k < v.len() ==> #[trigger] opt_view(v)[k] < n
}

proof fn lemma_opts_push(v: Seq<Option<usize>>, x: Option<usize>, n: int)
    requires
        opts_below(v, n),
        opt_view(seq![x])[0] < n,
    ensures
        opts_below(v.push(x), n),
{
    assert(opt_view(v.push(x)) =~= opt_view(v).push(opt_view(seq![x])[0]));
}

proof fn lemma_pairs_push(a: Seq<Option<usize>>, b: Seq<Option<usize>>, x: Option<usize>, y: Option<usize>)
    requires
        a.len() == b.len(),
    ensures
        pairs_view(a.push(x), b.push(y)) == pairs_view(a, b).push(
            (opt_view(seq![x])[0], opt_view(seq![y])[0]),
        ),
{
    assert(pairs_view(a.push(x), b.push(y)) =~= pairs_view(a, b).push(
        (opt_view(seq![x])[0], opt_view(seq![y])[0]),
    ));
}

proof fn lemma_has_match_step(lk: Seq<Seq<Value>>, l: nat, rk: Seq<Seq<Value>>, r: int)
    ensures
        has_match(lk, l + 1, rk, r) == (has_match(lk, l, rk, r) || row_key(lk, l as int) == row_key(
            rk,
            r,
        )),
{
    if has_match(lk, l + 1, rk, r) {
        let w = choose|w: int| 0 <= w < l + 1 && row_key(lk, w) == row_key(rk, r);
        if w < l {
            assert(has_match(lk, l, rk, r));
        }
    }
    if has_match(lk, l, rk, r) {
        let w = choose|w: int| 0 <= w < l && row_key(lk, w) == row_key(rk, r);
        assert(0 <= w < l + 1);
    }
    if row_key(lk, l as int) == row_key(rk, r) {
        assert(0 <= l < l + 1);
    }
}

/// The row pairs of a join of left rows `0..n` and right rows `0..m`.
fn build_pairs(kind: JoinType, lk: &Vec<Vec<Cell>>, n: usize, rk: &Vec<Vec<Cell>>, m: usize) -> (r: (
    Vec<Option<usize>>,
    Vec<Option<usize>>,
))
    requires
        lk@.len() == rk@.len(),
        forall|c: int| 0 <= c < lk@.len() ==> (#[trigger] lk@[c])@.len() == n,
        forall|c: int| 0 <= c < rk@.len() ==> (#[trigger] rk@[c])@.len() == m,
    ensures
        r.0@.len() == r.1@.len(),
        pairs_view(r.0@, r.1@) == join_pairs(kind, cols_view(lk@), cols_view(rk@), n as nat, m as nat),
        opts_below(r.0@, n as int),
        opts_below(r.1@, m as int),
{
    let ghost a = cols_view(lk@);
    let ghost b = cols_view(rk@);
    let keep = match kind {
        JoinType::Inner => false,
        _ => true,
    };
    let mut li: Vec<Option<usize>> = Vec::new();
    let mut ri: Vec<Option<usize>> = Vec::new();
    let mut matched: Vec<bool> = Vec::new();
    let mut x: usize = 0;
    while x < m
        invariant
            x <= m,
            matched@.len() == x,
            forall|q: int| 0 <= q < x ==> !(#[trigger] matched@[q]),
        decreases m - x,
    {
        matched.push(false);
        x += 1;
    }
    let mut l: usize = 0;
    while l < n
        invariant
            l <= n,
            lk@.len() == rk@.len(),
            a == cols_view(lk@),
            b == cols_view(rk@),
            forall|c: int| 0 <= c < lk@.len() ==> (#[trigger] lk@[c])@.len() == n,
            forall|c: int| 0 <= c < rk@.len() ==> (#[trigger] rk@[c])@.len() == m,
            li@.len() == ri@.len(),
            pairs_view(li@, ri@) == probe_pairs(keep, a, b, l as nat, m as nat),
            opts_below(li@, n as int),
            opts_below(ri@, m as int),
            matched@.len() == m,
            forall|q: int| 0 <= q < m ==> (#[trigger] matched@[q]) == has_match(a, l as nat, b, q),
        decreases n - l,
    {
        let ghost prev = pairs_view(li@, ri@);
        let mut found = false;
        let mut r: usize = 0;
        while r < m
            invariant
                r <= m,
                l < n,
                lk@.len() == rk@.len(),
                a == cols_view(lk@),
                b == cols_view(rk@),
                forall|c: int| 0 <= c < lk@.len() ==> (#[trigger] lk@[c])@.len() == n,
                forall|c: int| 0 <= c < rk@.len() ==> (#[trigger] rk@[c])@.len() == m,
                li@.len() == ri@.len(),
                pairs_view(li@, ri@) == prev + matches_of(a, b, l as int, r as nat).map_values(
                    |y: int| (l as int, y),
                ),
                found == (matches_of(a, b, l as int, r as nat).len() > 0),
                opts_below(li@, n as int),
                opts_below(ri@, m as int),
                matched@.len() == m,
                forall|q: int|
                    0 <= q < r ==> (#[trigger] matched@[q]) == (has_match(a, l as nat, b, q) || row_key(
                        a,
                        l as int,
                    ) == row_key(b, q)),
                forall|q: int| r <= q < m ==> (#[trigger] matched@[q]) == has_match(a, l as nat, b, q),
            decreases m - r,
        {
            let ghost ms = matches_of(a, b, l as int, r as nat);
            if keys_match(lk, l, rk, r) {
                proof {
                    lemma_pairs_push(li@, ri@, Some(l), Some(r));
                    lemma_opts_push(li@, Some(l), n as int);
                    lemma_opts_push(ri@, Some(r), m as int);
                }
                li.push(Some(l));
                ri.push(Some(r));
                matched.set(r, true);
                found = true;
                assert(ms.push(r as int).map_values(|y: int| (l as int, y)) =~= ms.map_values(
                    |y: int| (l as int, y),
                ).push((l as int, r as int)));
                assert(pairs_view(li@, ri@) =~= prev + matches_of(
                    a,
                    b,
                    l as int,
                    (r + 1) as nat,
                ).map_values(|y: int| (l as int, y)));
            }
            r += 1;
        }
        if !found && keep {
            proof {
                lemma_pairs_push(li@, ri@, Some(l), None);
                lemma_opts_push(li@, Some(l), n as int);
                lemma_opts_push(ri@, None, m as int);
            }
            li.push(Some(l));
            ri.push(None);
            assert(matches_of(a, b, l as int, m as nat).map_values(|y: int| (l as int, y)) =~= Seq::<
                (int, int),
            >::empty());
            assert(pairs_view(li@, ri@) =~= prev.push((l as int, -1)));
        }
        assert forall|q: int| 0 <= q < m implies (#[trigger] matched@[q]) == has_match(
            a,
            (l + 1) as nat,
            b,
            q,
        ) by {
            lemma_has_match_step(a, l as nat, b, q);
        }
        l += 1;
    }
    let ghost probed = pairs_view(li@, ri@);
    match kind {
        JoinType::Outer => {
            let mut r: usize = 0;
            while r < m
                invariant
                    r <= m,
                    li@.len() == ri@.len(),
                    pairs_view(li@, ri@) == probed + unmatched_right(a, b, n as nat, r as nat).map_values(
                        |y: int| (-1, y),
                    ),
                    opts_below(li@, n as int),
                    opts_below(ri@, m as int),
                    matched@.len() == m,
                    forall|q: int| 0 <= q < m ==> (#[trigger] matched@[q]) == has_match(a, n as nat, b, q),
                decreases m - r,
            {
                let ghost um = unmatched_right(a, b, n as nat, r as nat);
                if !matched[r] {
                    proof {
                        lemma_pairs_push(li@, ri@, None, Some(r));
                        lemma_opts_push(li@, None, n as int);
                        lemma_opts_push(ri@, Some(r), m as int);
                    }
                    li.push(None);
                    ri.push(Some(r));
                    assert(um.push(r as int).map_values(|y: int| (-1int, y)) =~= um.map_values(
                        |y: int| (-1int, y),
                    ).push((-1int, r as int)));
                }
                r += 1;
            }
        },
        _ => {},
    }
    (li, ri)
}

/// Paired key columns have the same type.
pub open spec fn keys_typed(t: Seq<SeriesV>, u: Seq<SeriesV>, lks: Seq<int>, rks: Seq<int>) -> bool {
    forall|q: int| 0 <= q < lks.len() ==> (#[trigger] t[lks[q]]).dtype == u[rks[q]].dtype
}

/// The conditions under which a join succeeds.
pub open spec fn join_ok(t: Seq<SeriesV>, u: Seq<SeriesV>, left_on: Seq<String>, right_on: Seq<String>) -> bool {
    let lks = resolve(t, names_view(left_on));
    let rks = resolve(u, names_view(right_on));
    left_on.len() == right_on.len() && all_found(lks) && all_found(rks) && keys_typed(t, u, lks, rks)
}

/// The error that a join reports, and the inputs on which it comes.
pub open spec fn join_err(
    t: Seq<SeriesV>,
    u: Seq<SeriesV>,
    left_on: Seq<String>,
    right_on: Seq<String>,
    e: TableError,
) -> bool {
    let lks = resolve(t, names_view(left_on));
    let rks = resolve(u, names_view(right_on));
    ||| e is InvalidArgument && left_on.len() != right_on.len()
    ||| e is ColumnNotFound && left_on.len() == right_on.len() && (!all_found(lks) || !all_found(
        rks,
    ))
    ||| e is TypeMismatch && left_on.len() == right_on.len() && all_found(lks) && all_found(rks)
        && !keys_typed(t, u, lks, rks)
}

/// The joined table of `t` and `u` on the given key names.
pub open spec fn join_result(
    t: Seq<SeriesV>,
    u: Seq<SeriesV>,
    left_on: Seq<String>,
    right_on: Seq<String>,
    kind: JoinType,
) -> Seq<SeriesV> {
    let lks = resolve(t, names_view(left_on));
    let rks = resolve(u, names_view(right_on));
    join_spec(
        t,
        u,
        lks,
        rks,
        join_pairs(kind, key_cols(t, lks), key_cols(u, rks), height_of(t), height_of(u)),
    )
}

impl JoinType {
    /// The join kind called `name`. Fails with `InvalidArgument` for any
    /// other name.
    pub fn from_name(name: &str) -> (r: Result<JoinType, TableError>)
        ensures
            match r {
                Ok(k) => join_name(k) == name@,
                Err(e) => e is InvalidArgument && forall|k: JoinType| join_name(k) != name@,
            },
    {
        let s = name.to_owned();
        proof {
            reveal_strlit("inner");
            reveal_strlit("left");
            reveal_strlit("outer");
        }
        if s == "inner".to_owned() {
            Ok(JoinType::Inner)
        } else if s == "left".to_owned() {
            Ok(JoinType::Left)
        } else if s == "outer".to_owned() {
            Ok(JoinType::Outer)
        } else {
            Err(TableError::InvalidArgument)
        }
    }
}

/// The first place at which `ks` holds `j`, if any.
fn find_slot(ks: &Vec<usize>, j: usize) -> (r: Option<usize>)
    ensures
        match r {
            Some(q) => q < ks@.len() && key_slot(idx_view(ks@), j as int, 0) == q,
            None => key_slot(idx_view(ks@), j as int, 0) == -1,
        },
{
    let ghost kv = idx_view(ks@);
    let mut q: usize = 0;
    while q < ks.len()
        invariant
            q <= ks.len(),
            kv == idx_view(ks@),
            key_slot(kv, j as int, 0) == key_slot(kv, j as int, q as int),
        decreases ks.len() - q,
    {
        if ks[q] == j {
            return Some(q);
        }
        q += 1;
    }
    None
}

impl PyDataFrame {
    /// The positions of the right columns that a join keeps.
    fn kept_right(&self, other: &PyDataFrame, lks: &Vec<usize>, rks: &Vec<usize>) -> (r: Vec<usize>)
        requires
            lks@.len() == rks@.len(),
            forall|q: int| 0 <= q < lks@.len() ==> (#[trigger] lks@[q]) < self@.len(),
        ensures
            idx_view(r@) == right_kept(self@, other@, idx_view(lks@), idx_view(rks@), other@.len()),
            forall|p: int| 0 <= p < r@.len() ==> (#[trigger] r@[p]) < other@.len(),
    {
        let ghost t = self@;
        let ghost u = other@;
        let ghost lv = idx_view(lks@);
        let ghost rv = idx_view(rks@);
        let mut out: Vec<usize> = Vec::new();
        let mut j: usize = 0;
        while j < other.width()
            invariant
                j <= u.len(),
                t == self@,
                u == other@,
                lv == idx_view(lks@),
                rv == idx_view(rks@),
                lks@.len() == rks@.len(),
                forall|q: int| 0 <= q < lks@.len() ==> (#[trigger] lks@[q]) < t.len(),
                idx_view(out@) == right_kept(t, u, lv, rv, j as nat),
                forall|p: int| 0 <= p < out@.len() ==> (#[trigger] out@[p]) < j,
            decreases u.len() - j,
        {
            let name = other.series_at_name(j);
            let mut dropped = false;
            let mut q: usize = 0;
            while q < rks.len()
                invariant
                    q <= rks.len(),
                    j < u.len(),
                    t == self@,
                    u == other@,
                    lv == idx_view(lks@),
                    rv == idx_view(rks@),
                    lks@.len() == rks@.len(),
                    name@ == u[j as int].name,
                    forall|i: int| 0 <= i < lks@.len() ==> (#[trigger] lks@[i]) < t.len(),
                    dropped ==> right_dropped(t, u, lv, rv, j as int),
                    !dropped ==> forall|i: int|
                        0 <= i < q ==> !(rv[i] == j && u[j as int].name == t[lv[i]].name),
                decreases rks.len() - q,
            {
                assert(rv[q as int] == rks@[q as int] as int && lv[q as int] == lks@[q as int] as int);
                if rks[q] == j && self.series_at_name(lks[q]) == name {
                    dropped = true;
                }
                q += 1;
            }
            if !dropped {
                let ghost before = out@;
                out.push(j);
                assert(idx_view(out@) =~= idx_view(before).push(j as int));
            }
            j += 1;
        }
        out
    }

    /// Joins `other` to this table by the key columns named in `left_on`
    /// and `right_on`, paired by position, with the join kind called `how`.
    /// Fails with `InvalidArgument` for an unknown kind, and otherwise as
    /// `join_with` does.
    pub fn join(&self, other: &PyDataFrame, left_on: &Vec<String>, right_on: &Vec<String>, how: &str) -> (r:
        Result<PyDataFrame, TableError>)
        requires
            self.wf(),
            other.wf(),
        ensures
            match r {
                Ok(res) => exists|k: JoinType|
                    join_name(k) == how@ && join_ok(self@, other@, left_on@, right_on@) && res.wf()
                        && res@ == join_result(self@, other@, left_on@, right_on@, k),
                Err(e) => (e is InvalidArgument && forall|k: JoinType| join_name(k) != how@) || exists|
                    k: JoinType,
                | join_name(k) == how@ && join_err(self@, other@, left_on@, right_on@, e),
            },
    {
        match JoinType::from_name(how) {
            Ok(k) => self.join_with(other, left_on, right_on, k),
            Err(e) => Err(e),
        }
    }

    /// Joins `other` to this table: the pairs of rows with equal keys (null
    /// equal to null only), left rows in order and for each its partners in
    /// order; `Left` and `Outer` keep left rows without partner, `Outer`
    /// then adds the right rows without partner. The result has every left
    /// column (in a left key column, a row without left side takes the
    /// right key's value), then every right column that is not a right key.
    /// Fails with `InvalidArgument` when the two key lists differ in length,
    /// else with `ColumnNotFound` when a key is not found, else with
    /// `TypeMismatch` when paired keys differ in type.
    pub fn join_with(&self, other: &PyDataFrame, left_on: &Vec<String>, right_on: &Vec<String>, kind: JoinType) -> (r:
        Result<PyDataFrame, TableError>)
        requires
            self.wf(),
            other.wf(),
        ensures
            match r {
                Ok(res) => join_ok(self@, other@, left_on@, right_on@) && res.wf() && res@
                    == join_result(self@, other@, left_on@, right_on@, kind),
                Err(e) => join_err(self@, other@, left_on@, right_on@, e),
            },
    {
        let ghost t = self@;
        let ghost u = other@;
        proof {
            self.lemma_wf();
            other.lemma_wf();
        }
        if left_on.len() != right_on.len() {
            return Err(TableError::InvalidArgument);
        }
        let lks = match self.resolve_names(left_on) {
            Ok(ks) => ks,
            Err(e) => return Err(e),
        };
        let rks = match other.resolve_names(right_on) {
            Ok(ks) => ks,
            Err(e) => return Err(e),
        };
        let ghost lv = idx_view(lks@);
        let ghost rv = idx_view(rks@);
        assert(lv.len() == left_on@.len() && rv.len() == right_on@.len());
        let mut q: usize = 0;
        while q < lks.len()
            invariant
                q <= lks.len(),
                left_on@.len() == right_on@.len(),
                lv == resolve(t, names_view(left_on@)),
                rv == resolve(u, names_view(right_on@)),
                all_found(lv),
                all_found(rv),
                lks@.len() == rks@.len(),
                self.wf(),
                other.wf(),
                t == self@,
                u == other@,
                lv == idx_view(lks@),
                rv == idx_view(rks@),
                forall|p: int| 0 <= p < lks@.len() ==> (#[trigger] lks@[p]) < t.len(),
                forall|p: int| 0 <= p < rks@.len() ==> (#[trigger] rks@[p]) < u.len(),
                forall|p: int| 0 <= p < q ==> (#[trigger] t[lv[p]]).dtype == u[rv[p]].dtype,
            decreases lks.len() - q,
        {
            if self.series_at(lks[q]).dtype() != other.series_at(rks[q]).dtype() {
                assert(!keys_typed(t, u, lv, rv)) by {
                    assert(t[lv[q as int]].dtype != u[rv[q as int]].dtype);
                }
                return Err(TableError::TypeMismatch);
            }
            q += 1;
        }
        assert(keys_typed(t, u, lv, rv));
        let lk = self.key_cells(&lks);
        let rk = other.key_cells(&rks);
        let n = self.height();
        let m = other.height();
        let (li, ri) = build_pairs(kind, &lk, n, &rk, m);
        let ghost pairs = pairs_view(li@, ri@);
        let ghost goal = join_spec(t, u, lv, rv, pairs);
        let mut out: Vec<Series> = Vec::new();
        let mut j: usize = 0;
        while j < self.width()
            invariant
                j <= t.len(),
                self.wf(),
                other.wf(),
                t == self@,
                u == other@,
                rectangular(t),
                rectangular(u),
                keys_typed(t, u, lv, rv),
                forall|q: int| 0 <= q < t.len() ==> all_fit((#[trigger] t[q]).values, t[q].dtype),
                forall|q: int| 0 <= q < u.len() ==> all_fit((#[trigger] u[q]).values, u[q].dtype),
                n == height_of(t),
                m == height_of(u),
                lv == idx_view(lks@),
                rv == idx_view(rks@),
                lks@.len() == rks@.len(),
                forall|p: int| 0 <= p < rks@.len() ==> (#[trigger] rks@[p]) < u.len(),
                li@.len() == ri@.len(),
                pairs == pairs_view(li@, ri@),
                opts_below(li@, n as int),
                opts_below(ri@, m as int),
                goal == join_spec(t, u, lv, rv, pairs),
                out@.len() == j,
                forall|i: int|
                    0 <= i < j ==> (#[trigger] out@[i]).wf() && out@[i]@ == goal[i] && out@[i]@.values.len()
                        == li@.len(),
            decreases t.len() - j,
        {
            let col = self.series_at(j);
            let cells = col.to_cells();
            let slot = find_slot(&lks, j);
            let rcells = match slot {
                Some(q) => other.series_at(rks[q]).to_cells(),
                None => Vec::new(),
            };
            let mut vals: Vec<Cell> = Vec::new();
            let mut k: usize = 0;
            while k < li.len()
                invariant
                    k <= li.len(),
                    li@.len() == ri@.len(),
                    pairs == pairs_view(li@, ri@),
                    opts_below(li@, n as int),
                    opts_below(ri@, m as int),
                    cells@.len() == n,
                    j < t.len(),
                    cells_view(cells@) == t[j as int].values,
                    slot is Some ==> rcells@.len() == m && cells_view(rcells@) == u[rv[key_slot(lv, j as int, 0)]].values
                        && key_slot(lv, j as int, 0) >= 0,
                    slot is None ==> key_slot(lv, j as int, 0) == -1,
                    vals@.len() == k,
                    forall|i: int|
                        0 <= i < k ==> (#[trigger] vals@[i])@ == left_value(t, u, lv, rv, j as int, pairs[i]),
                decreases li.len() - k,
            {
                assert(opt_view(li@)[k as int] < n);
                assert(opt_view(ri@)[k as int] < m);
                let c = match li[k] {
                    Some(i) => cells[i].duplicate(),
                    None => match (slot, ri[k]) {
                        (Some(_), Some(r)) => rcells[r].duplicate(),
                        _ => Cell::Null,
                    },
                };
                vals.push(c);
                k += 1;
            }
            proof { lemma_key_slot(lv, j as int, 0); }
            assert forall|i: int| 0 <= i < cells_view(vals@).len() implies fits(
                #[trigger] cells_view(vals@)[i],
                t[j as int].dtype,
            ) by {
                let pr = pairs[i];
                assert(pr.0 == opt_view(li@)[i] && pr.1 == opt_view(ri@)[i]);
                assert(opt_view(li@)[i] < n && opt_view(ri@)[i] < m);
                if pr.0 >= 0 {
                    assert(fits(t[j as int].values[pr.0], t[j as int].dtype));
                } else if key_slot(lv, j as int, 0) >= 0 && pr.1 >= 0 {
                    let q = key_slot(lv, j as int, 0);
                    assert(t[lv[q]].dtype == u[rv[q]].dtype);
                    assert(fits(u[rv[q]].values[pr.1], u[rv[q]].dtype));
                }
            }
            let s = Series::from_cells(col.name(), col.dtype(), vals);
            assert(s@.values =~= goal[j as int].values);
            out.push(s);
            j += 1;
        }
        let rest = self.kept_right(other, &lks, &rks);
        let ghost ov = right_kept(t, u, lv, rv, u.len());
        let mut p: usize = 0;
        while p < rest.len()
            invariant
                p <= rest.len(),
                self.wf(),
                other.wf(),
                t == self@,
                u == other@,
                rectangular(u),
                forall|q: int| 0 <= q < u.len() ==> all_fit((#[trigger] u[q]).values, u[q].dtype),
                m == height_of(u),
                rv == idx_view(rks@),
                ov == idx_view(rest@),
                ov == right_kept(t, u, lv, rv, u.len()),
                forall|i: int| 0 <= i < rest@.len() ==> (#[trigger] rest@[i]) < u.len(),
                li@.len() == ri@.len(),
                pairs == pairs_view(li@, ri@),
                opts_below(ri@, m as int),
                goal == join_spec(t, u, lv, rv, pairs),
                out@.len() == t.len() + p,
                forall|i: int|
                    0 <= i < t.len() + p ==> (#[trigger] out@[i]).wf() && out@[i]@ == goal[i]
                        && out@[i]@.values.len() == li@.len(),
            decreases rest.len() - p,
        {
            let col = other.series_at(rest[p]);
            let cells = col.to_cells();
            let mut vals: Vec<Cell> = Vec::new();
            let mut k: usize = 0;
            while k < ri.len()
                invariant
                    k <= ri.len(),
                    li@.len() == ri@.len(),
                    pairs == pairs_view(li@, ri@),
                    opts_below(ri@, m as int),
                    cells@.len() == m,
                    cells_view(cells@) == u[ov[p as int]].values,
                    vals@.len() == k,
                    forall|i: int|
                        0 <= i < k ==> (#[trigger] vals@[i])@ == (if pairs[i].1 >= 0 {
                            u[ov[p as int]].values[pairs[i].1]
                        } else {
                            Value::Null
                        }),
                decreases ri.len() - k,
            {
                assert(opt_view(ri@)[k as int] < m);
                let c = match ri[k] {
                    Some(r) => cells[r].duplicate(),
                    None => Cell::Null,
                };
                vals.push(c);
                k += 1;
            }
            assert forall|i: int| 0 <= i < cells_view(vals@).len() implies fits(
                #[trigger] cells_view(vals@)[i],
                u[ov[p as int]].dtype,
            ) by {
                assert(pairs[i].1 == opt_view(ri@)[i]);
                assert(opt_view(ri@)[i] < m);
                if pairs[i].1 >= 0 {
                    assert(fits(u[ov[p as int]].values[pairs[i].1], u[ov[p as int]].dtype));
                }
            }
            let s = Series::from_cells(col.name(), col.dtype(), vals);
            assert(s@.values =~= goal[t.len() + p].values);
            out.push(s);
            p += 1;
        }
        let ghost outv = out@.map_values(|s: Series| s@);
        assert(outv =~= goal);
        Ok(PyDataFrame::from_series(out))
    }
}

} // verus!
