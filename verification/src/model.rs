//! Arithmetic on sequences that the list's invariants are stated over:
//! running sums, the nearest taller node in either direction, and the
//! concatenation of node contents.

use vstd::prelude::*;
use crate::item::ListItem;
use crate::item::userlen;
use crate::item::lemma_userlen_concat;

verus! {

/// The sum of the first `k` entries of `s`.
pub open spec fn prefix_sum(s: Seq<nat>, k: int) -> nat
    decreases k,
{
    if k <= 0 {
        0
    } else {
        prefix_sum(s, k - 1) + s[k - 1]
    }
}

/// A sum over more entries is no smaller.
pub proof fn lemma_prefix_mono(s: Seq<nat>, a: int, b: int)
    requires
        0 <= a <= b,
    ensures
        prefix_sum(s, a) <= prefix_sum(s, b),
    decreases b - a,
{
    if a < b {
        lemma_prefix_mono(s, a, b - 1);
    }
}

/// Sequences that agree on their first `k` entries have the same sum of
/// them.
pub proof fn lemma_prefix_same(s: Seq<nat>, t: Seq<nat>, k: int)
    requires
        0 <= k <= s.len(),
        k <= t.len(),
        forall|m: int| 0 <= m < k ==> s[m] == t[m],
    ensures
        prefix_sum(s, k) == prefix_sum(t, k),
    decreases k,
{
    if k > 0 {
        lemma_prefix_same(s, t, k - 1);
    }
}

/// The sums of a sequence with one entry changed.
pub proof fn lemma_prefix_update(s: Seq<nat>, c: int, v: nat, k: int)
    requires
        0 <= c < s.len(),
        0 <= k <= s.len(),
    ensures
        prefix_sum(s.update(c, v), k) == if k <= c {
            prefix_sum(s, k) as int
        } else {
            prefix_sum(s, k) - s[c] + v
        },
    decreases k,
{
    if k > 0 {
        lemma_prefix_update(s, c, v, k - 1);
    }
}

/// The sums of a sequence with one entry put in.
pub proof fn lemma_prefix_insert(s: Seq<nat>, p: int, v: nat, k: int)
    requires
        0 <= p <= s.len(),
        0 <= k <= s.len() + 1,
    ensures
        prefix_sum(s.insert(p, v), k) == if k <= p {
            prefix_sum(s, k)
        } else {
            prefix_sum(s, k - 1) + v
        },
    decreases k,
{
    if k > 0 {
        lemma_prefix_insert(s, p, v, k - 1);
    }
}

/// The sums of a sequence with one entry taken out.
pub proof fn lemma_prefix_remove(s: Seq<nat>, p: int, k: int)
    requires
        0 <= p < s.len(),
        0 <= k <= s.len() - 1,
    ensures
        prefix_sum(s.remove(p), k) == if k <= p {
            prefix_sum(s, k) as int
        } else {
            prefix_sum(s, k + 1) - s[p]
        },
    decreases k,
{
    if k > 0 {
        lemma_prefix_remove(s, p, k - 1);
        if k > p {
            assert(prefix_sum(s, k + 1) == prefix_sum(s, k) + s[k]);
            assert(prefix_sum(s, k) == prefix_sum(s, k - 1) + s[k - 1]);
        }
    }
}

/// The first position at or after `a` whose height is above `lvl`, or the
/// length of `hs` when there is none.
pub open spec fn next_from(hs: Seq<int>, a: int, lvl: int) -> int
    decreases hs.len() - a,
{
    if a >= hs.len() {
        hs.len() as int
    } else if hs[a] > lvl {
        a
    } else {
        next_from(hs, a + 1, lvl)
    }
}

/// The last position at or before `c` whose height is above `lvl`, or 0,
/// the head, when there is none.
pub open spec fn prev_from(hs: Seq<int>, c: int, lvl: int) -> int
    decreases c,
{
    if c <= 0 {
        0
    } else if hs[c] > lvl {
        c
    } else {
        prev_from(hs, c - 1, lvl)
    }
}

/// What `next_from` finds: the position is taller than `lvl` unless it is
/// the end, and nothing between is.
pub proof fn lemma_next_props(hs: Seq<int>, a: int, lvl: int)
    requires
        0 <= a <= hs.len(),
    ensures
        a <= next_from(hs, a, lvl) <= hs.len(),
        next_from(hs, a, lvl) < hs.len() ==> hs[next_from(hs, a, lvl)] > lvl,
        forall|m: int| a <= m < next_from(hs, a, lvl) ==> hs[m] <= lvl,
    decreases hs.len() - a,
{
    if a < hs.len() && hs[a] <= lvl {
        lemma_next_props(hs, a + 1, lvl);
    }
}

/// A position that is what `next_from` is to find is what it finds.
pub proof fn lemma_next_unique(hs: Seq<int>, a: int, lvl: int, j: int)
    requires
        0 <= a <= j <= hs.len(),
        j < hs.len() ==> hs[j] > lvl,
        forall|m: int| a <= m < j ==> hs[m] <= lvl,
    ensures
        next_from(hs, a, lvl) == j,
    decreases j - a,
{
    if a < j {
        lemma_next_unique(hs, a + 1, lvl, j);
    }
}

/// What `prev_from` finds: the position is taller than `lvl` unless it is
/// the head, and nothing between is.
pub proof fn lemma_prev_props(hs: Seq<int>, c: int, lvl: int)
    requires
        0 <= c < hs.len(),
    ensures
        0 <= prev_from(hs, c, lvl) <= c,
        prev_from(hs, c, lvl) > 0 ==> hs[prev_from(hs, c, lvl)] > lvl,
        forall|m: int| prev_from(hs, c, lvl) < m <= c ==> hs[m] <= lvl,
    decreases c,
{
    if c > 0 && hs[c] <= lvl {
        lemma_prev_props(hs, c - 1, lvl);
    }
}

/// A position that is what `prev_from` is to find is what it finds.
pub proof fn lemma_prev_unique(hs: Seq<int>, c: int, lvl: int, q: int)
    requires
        0 <= q <= c < hs.len(),
        q > 0 ==> hs[q] > lvl,
        forall|m: int| q < m <= c ==> hs[m] <= lvl,
    ensures
        prev_from(hs, c, lvl) == q,
    decreases c - q,
{
    if q < c {
        lemma_prev_unique(hs, c - 1, lvl, q);
    }
}

/// The concatenation of the sequences in `ss`, in order.
pub open spec fn flatten<T>(ss: Seq<Seq<T>>) -> Seq<T>
    decreases ss.len(),
{
    if ss.len() == 0 {
        Seq::empty()
    } else {
        flatten(ss.drop_last()) + ss.last()
    }
}

/// Joining two rows of parts, one behind the other, joins what they join.
pub proof fn lemma_flatten_concat<T>(a: Seq<Seq<T>>, b: Seq<Seq<T>>)
    ensures
        flatten(a + b) =~= flatten(a) + flatten(b),
    decreases b.len(),
{
    if b.len() == 0 {
        assert(a + b =~= a);
    } else {
        assert((a + b).drop_last() =~= a + b.drop_last());
        assert((a + b).last() == b.last());
        lemma_flatten_concat(a, b.drop_last());
    }
}

/// One part joined is that part.
pub proof fn lemma_flatten_one<T>(s: Seq<T>)
    ensures
        flatten(seq![s]) =~= s,
{
    assert(seq![s].drop_last() =~= Seq::<Seq<T>>::empty());
    assert(flatten(seq![s].drop_last()) =~= Seq::<T>::empty());
}

/// Everything before part `k`, part `k` itself, and everything after it.
pub proof fn lemma_flatten_at<T>(ss: Seq<Seq<T>>, k: int)
    requires
        0 <= k < ss.len(),
    ensures
        flatten(ss) =~= flatten(ss.take(k)) + ss[k] + flatten(ss.skip(k + 1)),
{
    assert(ss =~= ss.take(k) + seq![ss[k]] + ss.skip(k + 1));
    lemma_flatten_concat(ss.take(k) + seq![ss[k]], ss.skip(k + 1));
    lemma_flatten_concat(ss.take(k), seq![ss[k]]);
    lemma_flatten_one(ss[k]);
}

/// The parts joined are the first `k` joined and the rest joined.
pub proof fn lemma_flatten_split<T>(ss: Seq<Seq<T>>, k: int)
    requires
        0 <= k <= ss.len(),
    ensures
        flatten(ss) =~= flatten(ss.take(k)) + flatten(ss.skip(k)),
{
    assert(ss =~= ss.take(k) + ss.skip(k));
    lemma_flatten_concat(ss.take(k), ss.skip(k));
}

/// The lengths of the parts.
pub open spec fn lens<T>(ss: Seq<Seq<T>>) -> Seq<nat> {
    Seq::new(ss.len(), |k: int| ss[k].len())
}

/// The user sizes of the parts.
pub open spec fn sizes<Item: ListItem>(ss: Seq<Seq<Item>>) -> Seq<nat> {
    Seq::new(ss.len(), |k: int| userlen(ss[k]))
}

/// The first `k` parts joined are as long as the parts together.
pub proof fn lemma_flatten_take_len<T>(ss: Seq<Seq<T>>, k: int)
    requires
        0 <= k <= ss.len(),
    ensures
        flatten(ss.take(k)).len() == prefix_sum(lens(ss), k),
    decreases k,
{
    if k > 0 {
        lemma_flatten_take_len(ss, k - 1);
        assert(ss.take(k).drop_last() =~= ss.take(k - 1));
    }
}

/// The first `k` parts joined are as large as the parts together.
pub proof fn lemma_flatten_take_userlen<Item: ListItem>(ss: Seq<Seq<Item>>, k: int)
    requires
        0 <= k <= ss.len(),
    ensures
        userlen(flatten(ss.take(k))) == prefix_sum(sizes(ss), k),
    decreases k,
{
    if k > 0 {
        lemma_flatten_take_userlen(ss, k - 1);
        assert(ss.take(k).drop_last() =~= ss.take(k - 1));
        lemma_userlen_concat(flatten(ss.take(k - 1)), ss[k - 1]);
    }
}

/// The parts joined are as long as the parts together.
pub proof fn lemma_flatten_len<T>(ss: Seq<Seq<T>>)
    ensures
        flatten(ss).len() == prefix_sum(lens(ss), ss.len() as int),
{
    lemma_flatten_take_len(ss, ss.len() as int);
    assert(ss.take(ss.len() as int) =~= ss);
}

/// The parts joined are as large as the parts together.
pub proof fn lemma_flatten_userlen<Item: ListItem>(ss: Seq<Seq<Item>>)
    ensures
        userlen(flatten(ss)) == prefix_sum(sizes(ss), ss.len() as int),
{
    lemma_flatten_take_userlen(ss, ss.len() as int);
    assert(ss.take(ss.len() as int) =~= ss);
}

/// The element at offset `j` of part `k` sits in the whole at the length of
/// the parts before it plus `j`; and so does everything up to it.
pub proof fn lemma_flatten_index<T>(ss: Seq<Seq<T>>, k: int, j: int)
    requires
        0 <= k < ss.len(),
        0 <= j <= ss[k].len(),
    ensures
        prefix_sum(lens(ss), k) + j <= flatten(ss).len(),
        flatten(ss).take(prefix_sum(lens(ss), k) + j) =~= flatten(ss.take(k)) + ss[k].take(j),
        flatten(ss).skip(prefix_sum(lens(ss), k) + j) =~= ss[k].skip(j) + flatten(ss.skip(k + 1)),
        j < ss[k].len() ==> flatten(ss)[prefix_sum(lens(ss), k) + j] == ss[k][j],
{
    lemma_flatten_at(ss, k);
    lemma_flatten_take_len(ss, k);
}

/// Looking back for a taller node with position `p` left out finds the same
/// node as looking back with it, unless `p` itself is met first and is
/// taller.
pub proof fn lemma_prev_unmask(hs: Seq<int>, p: int, c: int, lvl: int)
    requires
        0 < p < hs.len(),
        0 <= c < hs.len(),
        0 <= lvl,
    ensures
        prev_from(hs, c, lvl) == if p <= c && hs[p] > lvl && prev_from(hs.update(p, 0), c, lvl) < p {
            p
        } else {
            prev_from(hs.update(p, 0), c, lvl)
        },
{
    let m = hs.update(p, 0);
    let a = prev_from(m, c, lvl);
    lemma_prev_props(m, c, lvl);
    if p <= c && hs[p] > lvl && a < p {
        assert forall|x: int| p < x <= c implies hs[x] <= lvl by {
            assert(m[x] <= lvl);
        }
        lemma_prev_unique(hs, c, lvl, p);
    } else {
        assert forall|x: int| a < x <= c implies hs[x] <= lvl by {
            assert(m[x] <= lvl);
        }
        if a > 0 {
            assert(m[a] > lvl);
        }
        lemma_prev_unique(hs, c, lvl, a);
    }
}

/// A part put in shows in the whole at the length of the parts before it.
pub proof fn lemma_flatten_insert<T>(ss: Seq<Seq<T>>, p: int, x: Seq<T>)
    requires
        0 <= p <= ss.len(),
    ensures
        prefix_sum(lens(ss), p) <= flatten(ss).len(),
        flatten(ss.insert(p, x)) =~= flatten(ss).take(prefix_sum(lens(ss), p) as int) + x + flatten(ss).skip(
            prefix_sum(lens(ss), p) as int,
        ),
{
    assert(ss.insert(p, x) =~= ss.take(p) + seq![x] + ss.skip(p));
    lemma_flatten_concat(ss.take(p) + seq![x], ss.skip(p));
    lemma_flatten_concat(ss.take(p), seq![x]);
    lemma_flatten_one(x);
    lemma_flatten_split(ss, p);
    lemma_flatten_take_len(ss, p);
}

/// A part taken out is missing from the whole where it stood.
pub proof fn lemma_flatten_remove<T>(ss: Seq<Seq<T>>, p: int)
    requires
        0 <= p < ss.len(),
    ensures
        prefix_sum(lens(ss), p) + ss[p].len() <= flatten(ss).len(),
        flatten(ss.remove(p)) =~= flatten(ss).take(prefix_sum(lens(ss), p) as int) + flatten(ss).skip(
            (prefix_sum(lens(ss), p) + ss[p].len()) as int,
        ),
{
    assert(ss.remove(p) =~= ss.take(p) + ss.skip(p + 1));
    lemma_flatten_concat(ss.take(p), ss.skip(p + 1));
    lemma_flatten_index(ss, p, 0);
    lemma_flatten_index(ss, p, ss[p].len() as int);
    assert(ss[p].take(0) =~= Seq::<T>::empty());
    assert(ss[p].skip(ss[p].len() as int) =~= Seq::<T>::empty());
}

} // verus!
