//! Properties that relate several operators, proved over their models.

use vstd::prelude::*;

use crate::agg::Agg;
use crate::apply::{group_tables, stack_all};
use crate::cell::Value;
use crate::join::{join_pairs, join_result, probe_pairs, JoinType};
use crate::groupby::{grouping, groupby_spec, key_cols, lemma_grouping_bounds, members, names_view, resolve};
use crate::frame::{
    count_true, first_count, height_of, mask_rows, rectangular, slice_spec, take_spec, vstack_spec,
};
use crate::series::SeriesV;

verus! {

/// The positions that `mask_rows` gives are as many as the `true` entries,
/// each holds `true`, and they increase.
pub proof fn lemma_mask_rows(m: Seq<Value>)
    ensures
        mask_rows(m).len() == count_true(m),
        forall|r: int|
            0 <= r < mask_rows(m).len() ==> 0 <= #[trigger] mask_rows(m)[r] < m.len() && m[mask_rows(
                m,
            )[r]] == Value::Bool(true),
        forall|a: int, b: int|
            0 <= a < b < mask_rows(m).len() ==> #[trigger] mask_rows(m)[a] < #[trigger] mask_rows(
                m,
            )[b],
    decreases m.len(),
{
    if m.len() > 0 {
        let p = m.drop_last();
        lemma_mask_rows(p);
        assert forall|r: int| 0 <= r < mask_rows(p).len() implies m[mask_rows(p)[r]] == p[mask_rows(
            p,
        )[r]] by {}
    }
}

/// Filtering keeps as many rows as the mask has `true` entries; output row
/// `r` equals the input row at a position where the mask is `true`, and the
/// rows keep their relative order.
pub proof fn lemma_filter_keeps_true_rows(t: Seq<SeriesV>, m: Seq<Value>)
    requires
        rectangular(t),
        m.len() == height_of(t),
    ensures
        height_of(take_spec(t, mask_rows(m))) == count_true(m),
        forall|r: int|
            0 <= r < count_true(m) ==> {
                let src = #[trigger] mask_rows(m)[r];
                &&& 0 <= src < height_of(t)
                &&& m[src] == Value::Bool(true)
                &&& forall|j: int|
                    0 <= j < t.len() ==> (#[trigger] take_spec(t, mask_rows(m))[j]).values[r]
                        == t[j].values[src]
            },
        forall|a: int, b: int|
            0 <= a < b < count_true(m) ==> #[trigger] mask_rows(m)[a] < #[trigger] mask_rows(m)[b],
{
    lemma_mask_rows(m);
    if t.len() == 0 {
        assert(m.len() == 0);
        assert(mask_rows(m).len() == 0);
    }
}

/// Taking the rows `0, 1, ..., height - 1` gives the table back.
pub proof fn lemma_take_identity(t: Seq<SeriesV>)
    requires
        rectangular(t),
    ensures
        take_spec(t, Seq::new(height_of(t), |i: int| i)) == t,
{
    let id = Seq::new(height_of(t), |i: int| i);
    assert forall|j: int| 0 <= j < t.len() implies #[trigger] take_spec(t, id)[j] == t[j] by {
        assert(take_spec(t, id)[j].values =~= t[j].values);
    }
    assert(take_spec(t, id) =~= t);
}

/// The first `k` rows stacked on the last `height - k` rows give the table
/// back.
pub proof fn lemma_head_tail_round_trip(t: Seq<SeriesV>, k: usize)
    requires
        rectangular(t),
        k <= height_of(t) <= usize::MAX,
    ensures
        vstack_spec(
            slice_spec(t, 0, first_count(Some(k), height_of(t))),
            slice_spec(
                t,
                height_of(t) - first_count(Some((height_of(t) - k) as usize), height_of(t)),
                height_of(t) as int,
            ),
        ) == t,
{
    let h = height_of(t);
    assert(first_count(Some(k), h) == k);
    assert(first_count(Some((h - k) as usize), h) == h - k);
    let v = vstack_spec(slice_spec(t, 0, k as int), slice_spec(t, k as int, h as int));
    assert forall|j: int| 0 <= j < t.len() implies #[trigger] v[j] == t[j] by {
        assert(v[j].values =~= t[j].values);
    }
    assert(v =~= t);
}

/// The sum of the integers in `s`; other values add nothing.
pub open spec fn int_total(s: Seq<Value>) -> int
    decreases s.len(),
{
    if s.len() == 0 {
        0
    } else {
        int_total(s.drop_last()) + match s.last() {
            Value::Int(x) => x as int,
            _ => 0,
        }
    }
}

/// The sizes of groups `0..n` added up.
pub open spec fn member_total(gid: Seq<int>, n: nat) -> int
    decreases n,
{
    if n == 0 {
        0
    } else {
        member_total(gid, (n - 1) as nat) + members(gid, n - 1).len()
    }
}

proof fn lemma_member_total_step(gid: Seq<int>, n: nat)
    requires
        gid.len() > 0,
    ensures
        member_total(gid, n) == member_total(gid.drop_last(), n) + if 0 <= gid.last() < n {
            1int
        } else {
            0int
        },
    decreases n,
{
    if n > 0 {
        lemma_member_total_step(gid, (n - 1) as nat);
    }
}

proof fn lemma_member_total(gid: Seq<int>, n: nat)
    requires
        forall|i: int| 0 <= i < gid.len() ==> 0 <= #[trigger] gid[i] < n,
    ensures
        member_total(gid, n) == gid.len(),
    decreases gid.len(),
{
    if gid.len() == 0 {
        lemma_member_total_empty(gid, n);
    } else {
        lemma_member_total_step(gid, n);
        let p = gid.drop_last();
        assert forall|i: int| 0 <= i < p.len() implies 0 <= #[trigger] p[i] < n by {
            assert(p[i] == gid[i]);
        }
        lemma_member_total(p, n);
    }
}

proof fn lemma_member_total_empty(gid: Seq<int>, n: nat)
    requires
        gid.len() == 0,
    ensures
        member_total(gid, n) == 0,
    decreases n,
{
    if n > 0 {
        lemma_member_total_empty(gid, (n - 1) as nat);
    }
}

proof fn lemma_members_len(gid: Seq<int>, g: int)
    ensures
        members(gid, g).len() <= gid.len(),
    decreases gid.len(),
{
    if gid.len() > 0 {
        lemma_members_len(gid.drop_last(), g);
    }
}

proof fn lemma_count_total(gid: Seq<int>, t: Seq<Value>, n: nat)
    requires
        gid.len() <= i64::MAX,
        n <= t.len(),
        forall|g: int| 0 <= g < n ==> #[trigger] t[g] == Value::Int(members(gid, g).len() as i64),
    ensures
        int_total(t.take(n as int)) == member_total(gid, n),
    decreases n,
{
    if n > 0 {
        lemma_count_total(gid, t, (n - 1) as nat);
        assert(t.take(n as int).drop_last() == t.take(n - 1));
        lemma_members_len(gid, n - 1);
    }
}

/// Grouping with `count`: the counts of the groups add up to the height of
/// the table, whatever the key columns.
pub proof fn lemma_group_counts_sum(t: Seq<SeriesV>, ks: Seq<int>, sel: Seq<int>, p: int)
    requires
        height_of(t) <= i64::MAX,
        0 <= p < sel.len(),
    ensures
        int_total(groupby_spec(t, ks, sel, Agg::Count)[ks.len() + p].values) == height_of(t),
{
    let kc = key_cols(t, ks);
    let n = height_of(t);
    lemma_grouping_bounds(kc, n);
    let f = grouping(kc, n).0;
    let gid = grouping(kc, n).1;
    let col = groupby_spec(t, ks, sel, Agg::Count)[ks.len() + p].values;
    assert(col.len() == f.len());
    lemma_count_total(gid, col, f.len());
    assert(col.take(f.len() as int) == col);
    lemma_member_total(gid, f.len());
}

proof fn lemma_probe_len(lk: Seq<Seq<Value>>, rk: Seq<Seq<Value>>, n: nat, m: nat)
    ensures
        probe_pairs(false, lk, rk, n, m).len() <= probe_pairs(true, lk, rk, n, m).len(),
    decreases n,
{
    if n > 0 {
        lemma_probe_len(lk, rk, (n - 1) as nat, m);
    }
}

/// Joining on the same keys, an inner join has no more rows than a left
/// join, which has no more rows than an outer join.
pub proof fn lemma_join_heights(
    t: Seq<SeriesV>,
    u: Seq<SeriesV>,
    left_on: Seq<String>,
    right_on: Seq<String>,
)
    ensures
        height_of(join_result(t, u, left_on, right_on, JoinType::Inner)) <= height_of(
            join_result(t, u, left_on, right_on, JoinType::Left),
        ),
        height_of(join_result(t, u, left_on, right_on, JoinType::Left)) <= height_of(
            join_result(t, u, left_on, right_on, JoinType::Outer),
        ),
{
    let lk = key_cols(t, resolve(t, names_view(left_on)));
    let rk = key_cols(u, resolve(u, names_view(right_on)));
    lemma_probe_len(lk, rk, height_of(t), height_of(u));
}

/// The rows of groups `0..k`, group after group.
pub open spec fn concat_members(gid: Seq<int>, k: nat) -> Seq<int>
    decreases k,
{
    if k == 0 {
        Seq::empty()
    } else {
        concat_members(gid, (k - 1) as nat) + members(gid, k - 1)
    }
}

proof fn lemma_vstack_take(t: Seq<SeriesV>, a: Seq<int>, b: Seq<int>)
    ensures
        vstack_spec(take_spec(t, a), take_spec(t, b)) == take_spec(t, a + b),
{
    let l = vstack_spec(take_spec(t, a), take_spec(t, b));
    let r = take_spec(t, a + b);
    assert forall|j: int| 0 <= j < t.len() implies #[trigger] l[j] == r[j] by {
        assert(l[j].values =~= r[j].values);
    }
    assert(l =~= r);
}

proof fn lemma_stack_groups(t: Seq<SeriesV>, gid: Seq<int>, n: nat, k: nat)
    requires
        1 <= k <= n,
    ensures
        stack_all(Seq::new(n, |g: int| take_spec(t, members(gid, g))).take(k as int)) == take_spec(
            t,
            concat_members(gid, k),
        ),
    decreases k,
{
    let ts = Seq::new(n, |g: int| take_spec(t, members(gid, g)));
    if k == 1 {
        assert(concat_members(gid, 0) == Seq::<int>::empty());
        assert(concat_members(gid, 1) == Seq::<int>::empty() + members(gid, 0));
        assert(concat_members(gid, 1) =~= members(gid, 0));
        assert(ts.take(1)[0] == ts[0]);
    } else {
        lemma_stack_groups(t, gid, n, (k - 1) as nat);
        assert(ts.take(k as int).drop_last() == ts.take(k - 1));
        lemma_vstack_take(t, concat_members(gid, (k - 1) as nat), members(gid, k - 1));
    }
}

proof fn lemma_concat_members_empty(gid: Seq<int>, k: nat)
    requires
        gid.len() == 0,
    ensures
        concat_members(gid, k) == Seq::<int>::empty(),
    decreases k,
{
    if k > 0 {
        lemma_concat_members_empty(gid, (k - 1) as nat);
        assert(concat_members(gid, k) =~= Seq::<int>::empty());
    }
}

proof fn lemma_concat_members_step(gid: Seq<int>, k: nat)
    requires
        gid.len() > 0,
    ensures
        concat_members(gid, k).to_multiset() == if 0 <= gid.last() < k {
            concat_members(gid.drop_last(), k).to_multiset().insert(gid.len() - 1)
        } else {
            concat_members(gid.drop_last(), k).to_multiset()
        },
    decreases k,
{
    if k > 0 {
        lemma_concat_members_step(gid, (k - 1) as nat);
        let p = gid.drop_last();
        let a = concat_members(gid, (k - 1) as nat);
        let b = concat_members(p, (k - 1) as nat);
        let m = members(p, k - 1);
        vstd::seq_lib::lemma_multiset_commutative(a, members(gid, k - 1));
        vstd::seq_lib::lemma_multiset_commutative(b, m);
        m.to_multiset_ensures();
        if gid.last() == k - 1 {
            assert(members(gid, k - 1) == m.push(gid.len() - 1));
            assert(concat_members(gid, k).to_multiset() =~= concat_members(p, k).to_multiset().insert(
                gid.len() - 1,
            ));
        } else {
            assert(members(gid, k - 1) == m);
        }
    }
}

proof fn lemma_concat_members_ms(gid: Seq<int>, k: nat)
    requires
        forall|i: int| 0 <= i < gid.len() ==> 0 <= #[trigger] gid[i] < k,
    ensures
        concat_members(gid, k).to_multiset() == Seq::new(gid.len(), |i: int| i).to_multiset(),
    decreases gid.len(),
{
    let id = Seq::new(gid.len(), |i: int| i);
    if gid.len() == 0 {
        lemma_concat_members_empty(gid, k);
        assert(id =~= Seq::<int>::empty());
    } else {
        let p = gid.drop_last();
        assert forall|i: int| 0 <= i < p.len() implies 0 <= #[trigger] p[i] < k by {
            assert(p[i] == gid[i]);
        }
        lemma_concat_members_ms(p, k);
        lemma_concat_members_step(gid, k);
        let pid = Seq::new(p.len(), |i: int| i);
        assert(id =~= pid.push(gid.len() - 1));
        pid.to_multiset_ensures();
    }
}

/// Calling a transform that hands back its input on every group, and
/// placing the results one under the other, gives the rows of the table
/// again, each as often as in the table: the rows at a reordering of the
/// positions `0..height`. A table without rows has no groups, and the
/// result then has neither rows nor columns.
pub proof fn lemma_identity_apply(t: Seq<SeriesV>, ks: Seq<int>)
    ensures
        ({
            let gid = grouping(key_cols(t, ks), height_of(t)).1;
            let n = grouping(key_cols(t, ks), height_of(t)).0.len();
            &&& height_of(t) > 0 ==> stack_all(group_tables(t, ks)) == take_spec(t, concat_members(gid, n))
            &&& height_of(t) == 0 ==> stack_all(group_tables(t, ks)) == Seq::<SeriesV>::empty()
            &&& concat_members(gid, n).to_multiset() == Seq::new(height_of(t), |i: int| i).to_multiset()
        }),
{
    let kc = key_cols(t, ks);
    let h = height_of(t);
    lemma_grouping_bounds(kc, h);
    let f = grouping(kc, h).0;
    let gid = grouping(kc, h).1;
    let ts = group_tables(t, ks);
    assert(ts == Seq::new(f.len(), |g: int| take_spec(t, members(gid, g))));
    lemma_concat_members_ms(gid, f.len());
    if h > 0 {
        assert(gid.len() > 0);
        assert(0 <= gid[0] < f.len());
        lemma_stack_groups(t, gid, f.len(), f.len());
        assert(ts.take(f.len() as int) == ts);
    } else {
        assert(f.len() == 0);
        assert(ts.len() == 0);
    }
}

} // verus!
