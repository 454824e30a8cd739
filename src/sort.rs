//! Stable sorting of rows by a column, nulls last.

use vstd::prelude::*;

use vstd::string::*;

use crate::cell::{cells_view, fits, Cell, DataType, Value};
use crate::series::all_fit;
use crate::error::TableError;
use crate::frame::{height_of, idx_view, lemma_lookup, lookup, take_spec, PyDataFrame};

verus! {

/// The place of a value in the sort order: integers by value (negated when
/// sorting in descending order), `false` before `true` (after, in
/// descending order), and nulls last in either direction.
pub open spec fn rank(v: Value, descending: bool) -> int {
    match v {
        Value::Null => 0x1_0000_0000_0000_0000,
        Value::Int(x) => if descending {
            -(x as int)
        } else {
            x as int
        },
        Value::Bool(b) => if b != descending {
            1
        } else {
            0
        },
        Value::Str(_) => 0,
    }
}

/// Whether string `a` comes before string `b` in the order of their
/// characters (a proper prefix comes first).
pub open spec fn str_lt(a: Seq<char>, b: Seq<char>) -> bool
    decreases a.len(),
{
    if a.len() == 0 {
        b.len() > 0
    } else if b.len() == 0 {
        false
    } else if a[0] != b[0] {
        a[0] < b[0]
    } else {
        str_lt(a.drop_first(), b.drop_first())
    }
}

/// Whether value `x` comes strictly before value `y` in the sort order:
/// strings by their characters, other values by `rank`; nulls last.
pub open spec fn precedes(x: Value, y: Value, descending: bool) -> bool {
    match (x, y) {
        (Value::Str(a), Value::Str(b)) => if descending {
            str_lt(b, a)
        } else {
            str_lt(a, b)
        },
        _ => rank(x, descending) < rank(y, descending),
    }
}

/// Whether `perm` lists the rows in the sort order, rows that neither
/// precedes the other in the order they had in the table.
pub open spec fn sorted_stably(keys: Seq<Value>, perm: Seq<int>, descending: bool) -> bool {
    forall|a: int, b: int|
        0 <= a < b < perm.len() ==> !precedes(keys[#[trigger] perm[b]], keys[#[trigger] perm[a]], descending)
            && (!precedes(keys[perm[a]], keys[perm[b]], descending) ==> perm[a] < perm[b])
}

proof fn lemma_str_asym(a: Seq<char>, b: Seq<char>)
    ensures
        str_lt(a, b) ==> !str_lt(b, a),
    decreases a.len(),
{
    if a.len() > 0 && b.len() > 0 && a[0] == b[0] {
        lemma_str_asym(a.drop_first(), b.drop_first());
    }
}

proof fn lemma_str_total(a: Seq<char>, b: Seq<char>)
    ensures
        a != b ==> str_lt(a, b) || str_lt(b, a),
    decreases a.len(),
{
    if a.len() > 0 && b.len() > 0 && a[0] == b[0] {
        lemma_str_total(a.drop_first(), b.drop_first());
        if a.drop_first() == b.drop_first() {
            assert(a =~= b) by {
                assert forall|i: int| 0 <= i < a.len() implies a[i] == b[i] by {
                    if i > 0 {
                        assert(a[i] == a.drop_first()[i - 1]);
                        assert(b[i] == b.drop_first()[i - 1]);
                    }
                }
            }
        }
    }
    if a.len() == 0 && b.len() == 0 {
        assert(a =~= b);
    }
}

proof fn lemma_str_trans(a: Seq<char>, b: Seq<char>, c: Seq<char>)
    ensures
        str_lt(a, b) && str_lt(b, c) ==> str_lt(a, c),
    decreases a.len(),
{
    if a.len() > 0 && b.len() > 0 && c.len() > 0 {
        lemma_str_trans(a.drop_first(), b.drop_first(), c.drop_first());
    }
}

/// `precedes` is a strict weak order on the values of one column type.
proof fn lemma_precedes(x: Value, y: Value, z: Value, d: bool, dt: DataType)
    requires
        fits(x, dt),
        fits(y, dt),
        fits(z, dt),
    ensures
        precedes(x, y, d) ==> !precedes(y, x, d),
        !precedes(z, y, d) && !precedes(y, x, d) ==> !precedes(z, x, d),
{
    if let (Value::Str(a), Value::Str(b), Value::Str(c)) = (x, y, z) {
        lemma_str_asym(a, b);
        lemma_str_asym(b, a);
        lemma_str_total(a, b);
        lemma_str_total(b, c);
        lemma_str_total(a, c);
        lemma_str_trans(c, a, b);
        lemma_str_trans(b, a, c);
        lemma_str_trans(a, b, c);
        lemma_str_trans(c, b, a);
    } else if let (Value::Str(a), Value::Str(b)) = (x, y) {
        lemma_str_asym(a, b);
        lemma_str_asym(b, a);
    }
}

/// Whether `perm` holds each of `0..n` once.
pub open spec fn is_permutation(perm: Seq<int>, n: nat) -> bool {
    perm.to_multiset() == Seq::new(n, |i: int| i).to_multiset()
}

/// Whether `perm` is the stable sort order of the rows of `keys`.
pub open spec fn sort_order(keys: Seq<Value>, perm: Seq<int>, descending: bool) -> bool {
    &&& is_permutation(perm, keys.len())
    &&& sorted_stably(keys, perm, descending)
    &&& forall|k: int| 0 <= k < perm.len() ==> 0 <= #[trigger] perm[k] < keys.len()
}

fn rank_of(c: &Cell, descending: bool) -> (r: i128)
    ensures
        r as int == rank(c@, descending),
{
    match c {
        Cell::Null => 0x1_0000_0000_0000_0000,
        Cell::Int(x) => if descending {
            -(*x as i128)
        } else {
            *x as i128
        },
        Cell::Bool(b) => if *b != descending {
            1
        } else {
            0
        },
        Cell::Str(_) => 0,
    }
}

fn str_before(a: &String, b: &String) -> (r: bool)
    ensures
        r == str_lt(a@, b@),
{
    let sa = a.as_str();
    let sb = b.as_str();
    let la = sa.unicode_len();
    let lb = sb.unicode_len();
    let mut i: usize = 0;
    assert(a@.skip(0) =~= a@ && b@.skip(0) =~= b@);
    while i < la && i < lb
        invariant
            i <= la,
            i <= lb,
            la == a@.len(),
            lb == b@.len(),
            sa@ == a@,
            sb@ == b@,
            str_lt(a@, b@) == str_lt(a@.skip(i as int), b@.skip(i as int)),
        decreases la - i,
    {
        let ca = sa.get_char(i);
        let cb = sb.get_char(i);
        assert(a@.skip(i as int)[0] == ca && b@.skip(i as int)[0] == cb);
        if ca != cb {
            return ca < cb;
        }
        assert(a@.skip(i as int).drop_first() =~= a@.skip(i + 1));
        assert(b@.skip(i as int).drop_first() =~= b@.skip(i + 1));
        i += 1;
    }
    i == la && i < lb
}

/// Whether cell `a` comes strictly before cell `b` in the sort order.
fn cell_before(a: &Cell, b: &Cell, descending: bool) -> (r: bool)
    ensures
        r == precedes(a@, b@, descending),
{
    match (a, b) {
        (Cell::Str(x), Cell::Str(y)) => if descending {
            str_before(y, x)
        } else {
            str_before(x, y)
        },
        _ => rank_of(a, descending) < rank_of(b, descending),
    }
}

/// The stable sort order of the rows of `keys`, built by insertion.
pub fn sort_order_of(keys: &Vec<Cell>, descending: bool, dt: DataType) -> (r: Vec<usize>)
    requires
        all_fit(cells_view(keys@), dt),
    ensures
        sort_order(cells_view(keys@), idx_view(r@), descending),
{
    let ghost kv = cells_view(keys@);
    let n = keys.len();
    let mut perm: Vec<usize> = Vec::new();
    let mut i: usize = 0;
    assert(idx_view(perm@) =~= Seq::new(0, |j: int| j));
    while i < n
        invariant
            i <= n,
            n == keys@.len(),
            kv == cells_view(keys@),
            all_fit(kv, dt),
            perm@.len() == i,
            is_permutation(idx_view(perm@), i as nat),
            sorted_stably(kv, idx_view(perm@), descending),
            forall|k: int| 0 <= k < perm@.len() ==> (#[trigger] perm@[k]) < i,
        decreases n - i,
    {
        let mut k: usize = perm.len();
        while k > 0 && cell_before(&keys[i], &keys[perm[k - 1]], descending)
            invariant
                k <= perm@.len(),
                i < n,
                n == keys@.len(),
                kv == cells_view(keys@),
                forall|q: int| 0 <= q < perm@.len() ==> (#[trigger] perm@[q]) < i,
                forall|q: int|
                    k <= q < perm@.len() ==> precedes(kv[i as int], kv[#[trigger] perm@[q] as int], descending),
            decreases k,
        {
            k -= 1;
        }
        let ghost old_perm = idx_view(perm@);
        assert(k > 0 ==> !precedes(kv[i as int], kv[old_perm[k - 1]], descending));
        perm.insert(k, i);
        proof {
            assert(idx_view(perm@) =~= old_perm.insert(k as int, i as int));
            vstd::seq_lib::to_multiset_insert(old_perm, k as int, i as int);
            let r = Seq::new(i as nat, |j: int| j);
            assert(Seq::new((i + 1) as nat, |j: int| j) =~= r.push(i as int));
            vstd::seq_lib::to_multiset_build(r, i as int);
            let np = idx_view(perm@);
            assert forall|a: int, b: int| 0 <= a < b < np.len() implies !precedes(
                kv[#[trigger] np[b]],
                kv[#[trigger] np[a]],
                descending,
            ) && (!precedes(kv[np[a]], kv[np[b]], descending) ==> np[a] < np[b]) by {
                assert(0 <= np[a] < n && 0 <= np[b] < n);
                lemma_precedes(kv[np[a]], kv[np[b]], kv[np[a]], descending, dt);
                if a < k && b < k {
                    assert(np[a] == old_perm[a] && np[b] == old_perm[b]);
                } else if a < k && b == k {
                    assert(np[a] == old_perm[a]);
                    assert(old_perm[a] < i);
                    if a < k - 1 {
                        assert(np[a] == old_perm[a] && old_perm[k - 1] == np[k - 1]);
                        assert(old_perm[k - 1] < i);
                        lemma_precedes(kv[np[a]], kv[old_perm[k - 1]], kv[i as int], descending, dt);
                    }
                } else if a < k && b > k {
                    assert(np[a] == old_perm[a] && np[b] == old_perm[b - 1]);
                } else if a == k {
                    assert(np[b] == old_perm[b - 1]);
                    lemma_precedes(kv[i as int], kv[np[b]], kv[i as int], descending, dt);
                } else {
                    assert(np[a] == old_perm[a - 1] && np[b] == old_perm[b - 1]);
                }
            }
        }
        i += 1;
    }
    assert forall|k: int| 0 <= k < idx_view(perm@).len() implies 0 <= #[trigger] idx_view(perm@)[k] < kv.len() by {
        assert(idx_view(perm@)[k] == perm@[k] as int);
    }
    perm
}

impl PyDataFrame {
    /// The rows in the stable sort order of the first column named
    /// `by_column` (see `precedes`: strings by their characters, nulls last
    /// in either direction). Fails with `ColumnNotFound` when there is none.
    pub fn sort(&self, by_column: &String, reverse: bool) -> (r: Result<PyDataFrame, TableError>)
        requires
            self.wf(),
        ensures
            ({
                let j = lookup(self@, by_column@);
                match r {
                    Ok(t) => j >= 0 && t.wf() && exists|perm: Seq<int>|
                        sort_order(self@[j].values, perm, reverse) && t@ == take_spec(self@, perm),
                    Err(e) => j == -1 && e is ColumnNotFound,
                }
            }),
    {
        proof {
            lemma_lookup(self@, by_column@);
            self.lemma_wf();
        }
        let j = match self.find_idx_by_name(by_column) {
            Some(j) => j,
            None => return Err(TableError::ColumnNotFound(by_column.clone())),
        };
        let col = self.series_at(j);
        let keys = col.to_cells();
        proof { col.lemma_wf(); }
        let perm = sort_order_of(&keys, reverse, col.dtype());
        assert(keys@.len() == height_of(self@));
        Ok(self.take_unchecked(&perm))
    }

    /// Sorts the rows in place, as `sort` does. Fails as `sort` does,
    /// leaving the table as it was.
    pub fn sort_in_place(&mut self, by_column: &String, reverse: bool) -> (r: Result<(), TableError>)
        requires
            old(self).wf(),
        ensures
            final(self).wf(),
            ({
                let j = lookup(old(self)@, by_column@);
                match r {
                    Ok(_) => j >= 0 && exists|perm: Seq<int>|
                        sort_order(old(self)@[j].values, perm, reverse) && final(self)@ == take_spec(
                            old(self)@,
                            perm,
                        ),
                    Err(e) => final(self)@ == old(self)@ && j == -1 && e is ColumnNotFound,
                }
            }),
    {
        match self.sort(by_column, reverse) {
            Ok(t) => {
                *self = t;
                Ok(())
            },
            Err(e) => Err(e),
        }
    }
}

} // verus!
