//! Where a user position lands in a sequence of items, and what the edits
//! make of a sequence.

use vstd::prelude::*;
use crate::item::ListItem;
use crate::item::userlen;
use crate::item::lemma_userlen_subrange;
use crate::item::lemma_userlen_take_step;
use crate::cursor::lands;
use crate::model::prefix_sum;
use crate::node::NODE_NUM_ITEMS;

verus! {

/// The place where user position `target` lands in `s`: an index and an
/// offset into the item there.
pub open spec fn landing<Item: ListItem>(s: Seq<Item>, target: nat) -> (int, nat) {
    choose|i: int, o: nat| lands(s, target, i, o)
}

/// The index of the item at or in which user position `target` lands.
pub open spec fn index_at<Item: ListItem>(s: Seq<Item>, target: nat) -> int {
    landing(s, target).0
}

/// How far into the item at `index_at` user position `target` lands: 0
/// where it falls between two items.
pub open spec fn offset_at<Item: ListItem>(s: Seq<Item>, target: nat) -> nat {
    landing(s, target).1
}

/// `s` with `x` put in before index `i`.
pub open spec fn inserted<Item>(s: Seq<Item>, i: int, x: Seq<Item>) -> Seq<Item> {
    s.take(i) + x + s.skip(i)
}

/// `s` without the `m` items from index `i` on.
pub open spec fn deleted<Item>(s: Seq<Item>, i: int, m: int) -> Seq<Item> {
    s.take(i) + s.skip(i + m)
}

/// `s` with `x` in place of the `m` items from index `i` on.
pub open spec fn replaced<Item>(s: Seq<Item>, i: int, m: int, x: Seq<Item>) -> Seq<Item> {
    s.take(i) + x + s.skip(i + m)
}

/// `s` with the item at index `i` cut in two at user offset `at`, and `x`
/// put between the halves.
pub open spec fn inserted_within<Item: ListItem>(s: Seq<Item>, i: int, at: nat, x: Seq<Item>) -> Seq<Item> {
    s.take(i) + seq![s[i].split_spec(at).0] + x + seq![s[i].split_spec(at).1] + s.skip(i + 1)
}

/// `s` with `x` put in at user position `target`: between two items where
/// the position falls between two, else inside the item that it falls in.
pub open spec fn inserted_at<Item: ListItem>(s: Seq<Item>, target: nat, x: Seq<Item>) -> Seq<Item> {
    if offset_at(s, target) == 0 {
        inserted(s, index_at(s, target), x)
    } else {
        inserted_within(s, index_at(s, target), offset_at(s, target), x)
    }
}

/// The user size of a prefix does not shrink as the prefix grows.
pub proof fn lemma_userlen_take_mono<Item: ListItem>(s: Seq<Item>, a: int, b: int)
    requires
        0 <= a <= b <= s.len(),
    ensures
        userlen(s.take(a)) <= userlen(s.take(b)),
{
    lemma_userlen_subrange(s, a, b);
}

/// A user position lands in one place only.
pub proof fn lemma_lands_unique<Item: ListItem>(s: Seq<Item>, target: nat, i1: int, o1: nat, i2: int, o2: nat)
    requires
        lands(s, target, i1, o1),
        lands(s, target, i2, o2),
    ensures
        i1 == i2,
        o1 == o2,
{
    if i1 < i2 {
        lemma_userlen_take_mono(s, i1, i2 - 1);
        lemma_userlen_take_mono(s, i1 + 1, i2);
        lemma_userlen_take_mono(s, i2 - 1, i2);
        if i1 < s.len() {
            lemma_userlen_take_step(s, i1);
        }
    } else if i2 < i1 {
        lemma_userlen_take_mono(s, i2, i1 - 1);
        lemma_userlen_take_mono(s, i2 + 1, i1);
        lemma_userlen_take_mono(s, i1 - 1, i1);
        if i2 < s.len() {
            lemma_userlen_take_step(s, i2);
        }
    }
}

/// Where a position is known to land, `index_at` and `offset_at` say so.
pub proof fn lemma_lands_at<Item: ListItem>(s: Seq<Item>, target: nat, i: int, o: nat)
    requires
        lands(s, target, i, o),
    ensures
        index_at(s, target) == i,
        offset_at(s, target) == o,
{
    let (i2, o2) = landing(s, target);
    assert(lands(s, target, i2, o2));
    lemma_lands_unique(s, target, i, o, i2, o2);
}

/// A user position at which some item ends or begins lands between two
/// items.
pub proof fn lemma_lands_on_boundary<Item: ListItem>(s: Seq<Item>, j: int)
    requires
        0 <= j <= s.len(),
    ensures
        offset_at(s, userlen(s.take(j))) == 0,
        index_at(s, userlen(s.take(j))) <= j,
        lands(s, userlen(s.take(j)), index_at(s, userlen(s.take(j))), 0),
    decreases j,
{
    let t = userlen(s.take(j));
    if j == 0 || userlen(s.take(j - 1)) < t {
        lemma_lands_at(s, t, j, 0);
    } else {
        lemma_userlen_take_mono(s, j - 1, j);
        lemma_lands_on_boundary(s, j - 1);
    }
}

/// Every user position up to the user size of a sequence lands somewhere
/// in it.
pub proof fn lemma_lands_exists<Item: ListItem>(s: Seq<Item>, target: nat)
    requires
        target <= userlen(s),
    ensures
        lands(s, target, index_at(s, target), offset_at(s, target)),
    decreases s.len(),
{
    if target == 0 {
        assert(s.take(0) =~= Seq::<Item>::empty());
        lemma_lands_at(s, target, 0, 0);
    } else {
        let t = s.drop_last();
        let n = t.len() as int;
        assert(s.take(n) =~= t);
        assert(s.take(n + 1) =~= s);
        if target <= userlen(t) {
            lemma_lands_exists(t, target);
            let i = index_at(t, target);
            let o = offset_at(t, target);
            assert(s.take(i) =~= t.take(i));
            if i > 0 {
                assert(s.take(i - 1) =~= t.take(i - 1));
            }
            lemma_lands_at(s, target, i, o);
        } else {
            let o = (target - userlen(t)) as nat;
            if o < s.last().usersize() {
                lemma_lands_at(s, target, n, o);
            } else {
                lemma_lands_at(s, target, n + 1, 0);
            }
        }
    }
}

/// What is left of a row of nodes, given by the number of items in each,
/// when `m` items are deleted from item index `idx` on: a node that loses
/// all its items goes, a node that loses some keeps the rest. An index at the
/// end of one node and the start of the next counts as the end of the first.
pub open spec fn trimmed(parts: Seq<nat>, idx: int, m: int) -> Seq<nat>
    decreases parts.len(),
{
    if parts.len() == 0 || m <= 0 {
        parts
    } else if idx >= parts[0] {
        seq![parts[0]] + trimmed(parts.drop_first(), idx - parts[0], m)
    } else {
        let here = if m < parts[0] - idx {
            m
        } else {
            parts[0] - idx
        };
        let rest = trimmed(parts.drop_first(), 0, m - here);
        if here == parts[0] {
            rest
        } else {
            seq![(parts[0] - here) as nat] + rest
        }
    }
}

/// The number of nodes that lose all their items when `m` items are deleted
/// from item index `idx` on.
pub open spec fn emptied(parts: Seq<nat>, idx: int, m: int) -> nat
    decreases parts.len(),
{
    if parts.len() == 0 || m <= 0 {
        0
    } else if idx >= parts[0] {
        emptied(parts.drop_first(), idx - parts[0], m)
    } else if idx == 0 && m >= parts[0] {
        1 + emptied(parts.drop_first(), 0, m - parts[0])
    } else if m < parts[0] - idx {
        emptied(parts.drop_first(), 0, 0)
    } else {
        emptied(parts.drop_first(), 0, m - (parts[0] - idx))
    }
}

/// A deletion leaves as many nodes fewer as it empties.
pub proof fn lemma_trimmed_count(parts: Seq<nat>, idx: int, m: int)
    requires
        0 <= idx,
    ensures
        trimmed(parts, idx, m).len() + emptied(parts, idx, m) == parts.len(),
    decreases parts.len(),
{
    if parts.len() == 0 || m <= 0 {
    } else if idx >= parts[0] {
        lemma_trimmed_count(parts.drop_first(), idx - parts[0], m);
    } else {
        let here = if m < parts[0] - idx {
            m
        } else {
            parts[0] - idx
        };
        lemma_trimmed_count(parts.drop_first(), 0, m - here);
    }
}

/// A deletion that starts behind the first `k` nodes leaves them as they
/// are.
pub proof fn lemma_trimmed_behind(parts: Seq<nat>, k: int, idx: int, m: int)
    requires
        0 <= k <= parts.len(),
        idx >= prefix_sum(parts, k),
        m > 0,
    ensures
        trimmed(parts, idx, m) == parts.take(k) + trimmed(parts.skip(k), idx - prefix_sum(parts, k), m),
    decreases k,
{
    if k == 0 {
        assert(parts.take(0) =~= Seq::<nat>::empty());
        assert(parts.skip(0) =~= parts);
        assert(parts.take(0) + trimmed(parts.skip(0), idx, m) =~= trimmed(parts, idx, m));
    } else {
        let rest = parts.drop_first();
        lemma_prefix_drop_first(parts, k);
        crate::model::lemma_prefix_mono(rest, 0, k - 1);
        lemma_trimmed_behind(rest, k - 1, idx - parts[0], m);
        assert(rest.skip(k - 1) =~= parts.skip(k));
        assert(seq![parts[0]] + rest.take(k - 1) =~= parts.take(k));
        assert(seq![parts[0]] + (rest.take(k - 1) + trimmed(rest.skip(k - 1), idx - parts[0] - prefix_sum(
            rest,
            k - 1,
        ), m)) =~= parts.take(k) + trimmed(parts.skip(k), idx - prefix_sum(parts, k), m));
    }
}

/// The sum of the first `k` entries is the first entry and the sum of the
/// `k - 1` that follow it.
pub proof fn lemma_prefix_drop_first(parts: Seq<nat>, k: int)
    requires
        1 <= k <= parts.len(),
    ensures
        prefix_sum(parts, k) == parts[0] + prefix_sum(parts.drop_first(), k - 1),
    decreases k,
{
    if k > 1 {
        lemma_prefix_drop_first(parts, k - 1);
        assert(parts.drop_first()[k - 2] == parts[k - 1]);
    } else {
        assert(prefix_sum(parts, 1) == prefix_sum(parts, 0) + parts[0]);
        assert(prefix_sum(parts.drop_first(), 0) == 0);
    }
}

/// Deleting some of the items of one node first and the rest of the
/// deletion afterwards comes to the same as the whole deletion.
pub proof fn lemma_trimmed_step_trim(parts: Seq<nat>, j: int, idx: int, rem: int, here: int)
    requires
        0 <= j < parts.len(),
        prefix_sum(parts, j) <= idx,
        idx - prefix_sum(parts, j) + here <= parts[j],
        1 <= here <= rem,
        here < parts[j],
        here == rem || idx - prefix_sum(parts, j) + here == parts[j],
    ensures
        trimmed(parts, idx, rem) == trimmed(parts.update(j, (parts[j] - here) as nat), idx, rem - here),
{
    let rel = idx - prefix_sum(parts, j);
    let after = parts.update(j, (parts[j] - here) as nat);
    lemma_trimmed_behind(parts, j, idx, rem);
    let tail = parts.skip(j);
    assert(tail.drop_first() =~= parts.skip(j + 1));
    assert(tail[0] == parts[j]);
    let rest = trimmed(parts.skip(j + 1), 0, rem - here);
    assert(trimmed(tail, rel, rem) == seq![(parts[j] - here) as nat] + rest);
    if rem - here == 0 {
        assert(after =~= parts.take(j) + (seq![(parts[j] - here) as nat] + parts.skip(j + 1)));
        assert(rest == parts.skip(j + 1));
        assert(parts.take(j) + (seq![(parts[j] - here) as nat] + rest) =~= after);
    } else {
        crate::model::lemma_prefix_same(parts, after, j);
        assert(prefix_sum(after, j + 1) == prefix_sum(after, j) + after[j]);
        lemma_trimmed_behind(after, j + 1, idx, rem - here);
        assert(after.skip(j + 1) =~= parts.skip(j + 1));
        assert(after.take(j + 1) =~= parts.take(j) + seq![(parts[j] - here) as nat]);
        assert(parts.take(j) + (seq![(parts[j] - here) as nat] + rest) =~= after.take(j + 1) + rest);
    }
}

/// Taking out a node that the deletion empties first and the rest of the
/// deletion afterwards comes to the same as the whole deletion.
pub proof fn lemma_trimmed_step_drop(parts: Seq<nat>, j: int, idx: int, rem: int)
    requires
        0 <= j < parts.len(),
        prefix_sum(parts, j) == idx,
        1 <= parts[j] <= rem,
    ensures
        trimmed(parts, idx, rem) == trimmed(parts.remove(j), idx, rem - parts[j]),
{
    let after = parts.remove(j);
    lemma_trimmed_behind(parts, j, idx, rem);
    let tail = parts.skip(j);
    assert(tail.drop_first() =~= parts.skip(j + 1));
    assert(tail[0] == parts[j]);
    let rest = trimmed(parts.skip(j + 1), 0, rem - parts[j]);
    assert(trimmed(tail, 0, rem) == rest);
    assert(after.take(j) =~= parts.take(j));
    assert(after.skip(j) =~= parts.skip(j + 1));
    if rem - parts[j] == 0 {
        assert(after =~= parts.take(j) + parts.skip(j + 1));
    } else {
        crate::model::lemma_prefix_same(parts, after, j);
        lemma_trimmed_behind(after, j, idx, rem - parts[j]);
    }
}

/// The nodes that `n` items make when they get nodes of their own: full
/// ones, and one for what is left over.
pub open spec fn chunks(n: int) -> Seq<nat>
    decreases n,
{
    if n <= 0 {
        Seq::empty()
    } else if n <= NODE_NUM_ITEMS {
        seq![n as nat]
    } else {
        seq![NODE_NUM_ITEMS as nat] + chunks(n - NODE_NUM_ITEMS)
    }
}

/// What becomes of a row of nodes, given by the number of items in each,
/// when `n` items are inserted at item index `idx`: they go into the node
/// that the index lies in, or at the end of, where they fit; else into the
/// node behind it, where the index is the end of the one and they fit into
/// the other; else they get nodes of their own, and so do the items of the
/// node that stood behind the index.
pub open spec fn spread(parts: Seq<nat>, idx: int, n: int) -> Seq<nat>
    decreases parts.len(),
{
    if n <= 0 {
        parts
    } else if parts.len() == 0 {
        chunks(n)
    } else if idx == 0 {
        if parts[0] + n <= NODE_NUM_ITEMS {
            parts.update(0, (parts[0] + n) as nat)
        } else {
            chunks(n) + parts
        }
    } else if idx > parts[0] {
        seq![parts[0]] + spread(parts.drop_first(), idx - parts[0], n)
    } else if parts[0] + n <= NODE_NUM_ITEMS {
        parts.update(0, (parts[0] + n) as nat)
    } else if idx == parts[0] {
        if parts.len() > 1 && parts[1] + n <= NODE_NUM_ITEMS {
            parts.update(1, (parts[1] + n) as nat)
        } else {
            seq![parts[0]] + chunks(n) + parts.drop_first()
        }
    } else {
        seq![idx as nat] + chunks(n) + seq![(parts[0] - idx) as nat] + parts.drop_first()
    }
}

/// An insertion behind the first `k` nodes leaves them as they are.
pub proof fn lemma_spread_behind(parts: Seq<nat>, k: int, idx: int, n: int)
    requires
        0 <= k <= parts.len(),
        idx > prefix_sum(parts, k),
        n > 0,
        forall|i: int| 0 <= i < parts.len() ==> #[trigger] parts[i] >= 1,
    ensures
        spread(parts, idx, n) == parts.take(k) + spread(parts.skip(k), idx - prefix_sum(parts, k), n),
    decreases k,
{
    if k == 0 {
        assert(parts.take(0) =~= Seq::<nat>::empty());
        assert(parts.skip(0) =~= parts);
        assert(parts.take(0) + spread(parts.skip(0), idx, n) =~= spread(parts, idx, n));
    } else {
        let rest = parts.drop_first();
        lemma_prefix_drop_first(parts, k);
        crate::model::lemma_prefix_mono(rest, 0, k - 1);
        assert forall|i: int| 0 <= i < rest.len() implies #[trigger] rest[i] >= 1 by {
            assert(rest[i] == parts[i + 1]);
        }
        lemma_spread_behind(rest, k - 1, idx - parts[0], n);
        assert(rest.skip(k - 1) =~= parts.skip(k));
        assert(seq![parts[0]] + rest.take(k - 1) =~= parts.take(k));
        assert(seq![parts[0]] + (rest.take(k - 1) + spread(rest.skip(k - 1), idx - parts[0] - prefix_sum(
            rest,
            k - 1,
        ), n)) =~= parts.take(k) + spread(parts.skip(k), idx - prefix_sum(parts, k), n));
    }
}

/// A full node and the nodes of the rest are the nodes of all.
pub proof fn lemma_chunks_step(n: int)
    requires
        n > NODE_NUM_ITEMS,
    ensures
        chunks(n) == seq![NODE_NUM_ITEMS as nat] + chunks(n - NODE_NUM_ITEMS),
{
}

/// What becomes of the item counts of the nodes of a list, the head
/// first, when `n` items are inserted at item `li` of the node at position
/// `c`.
pub open spec fn spread_at(cnts: Seq<nat>, c: int, li: int, n: int) -> Seq<nat> {
    if c >= 1 && cnts[c] + n <= NODE_NUM_ITEMS {
        cnts.update(c, (cnts[c] + n) as nat)
    } else if li == cnts[c] && c + 1 < cnts.len() && cnts[c + 1] + n <= NODE_NUM_ITEMS {
        cnts.update(c + 1, (cnts[c + 1] + n) as nat)
    } else {
        cnts.take(c) + seq![li as nat] + chunks(n) + (if li < cnts[c] {
            seq![(cnts[c] - li) as nat]
        } else {
            Seq::<nat>::empty()
        }) + cnts.skip(c + 1)
    }
}

/// Spreading by node and item index is spreading by item index in the
/// list.
pub proof fn lemma_spread_at(cnts: Seq<nat>, c: int, li: int, n: int)
    requires
        cnts.len() >= 1,
        cnts[0] == 0,
        forall|i: int| 1 <= i < cnts.len() ==> #[trigger] cnts[i] >= 1,
        0 <= c < cnts.len(),
        (c == 0 && li == 0) || (c >= 1 && 1 <= li <= cnts[c]),
        n >= 1,
    ensures
        spread_at(cnts, c, li, n).skip(1) == spread(cnts.skip(1), prefix_sum(cnts, c) + li, n),
{
    let parts = cnts.skip(1);
    let after = spread_at(cnts, c, li, n);
    assert forall|i: int| 0 <= i < parts.len() implies #[trigger] parts[i] >= 1 by {
        assert(parts[i] == cnts[i + 1]);
    }
    if c == 0 {
        assert(prefix_sum(cnts, 0) == 0);
        assert(cnts.take(0) =~= Seq::<nat>::empty());
        if cnts.len() > 1 && cnts[1] + n <= NODE_NUM_ITEMS {
            assert(after.skip(1) =~= parts.update(0, (parts[0] + n) as nat));
        } else {
            assert(after.skip(1) =~= chunks(n) + parts);
            if parts.len() == 0 {
                assert(chunks(n) + parts =~= chunks(n));
            }
        }
    } else {
        assert(cnts.drop_first() =~= parts);
        lemma_prefix_drop_first(cnts, c);
        let idx = prefix_sum(cnts, c) + li;
        lemma_spread_behind(parts, c - 1, idx, n);
        let tail = parts.skip(c - 1);
        assert(tail[0] == cnts[c]);
        assert(tail.drop_first() =~= cnts.skip(c + 1));
        assert(parts.take(c - 1) =~= cnts.take(c).skip(1));
        if cnts[c] + n <= NODE_NUM_ITEMS {
            assert(after.skip(1) =~= parts.take(c - 1) + tail.update(0, (tail[0] + n) as nat));
        } else if li == cnts[c] && c + 1 < cnts.len() && cnts[c + 1] + n <= NODE_NUM_ITEMS {
            assert(tail[1] == cnts[c + 1]);
            assert(after.skip(1) =~= parts.take(c - 1) + tail.update(1, (tail[1] + n) as nat));
        } else if li == cnts[c] {
            if tail.len() > 1 {
                assert(tail[1] == cnts[c + 1]);
            }
            assert(after.skip(1) =~= parts.take(c - 1) + (seq![tail[0]] + chunks(n) + tail.drop_first()));
        } else {
            assert(after.skip(1) =~= parts.take(c - 1) + (seq![li as nat] + chunks(n) + seq![
                (tail[0] - li) as nat,
            ] + tail.drop_first()));
        }
    }
}

/// What becomes of a row of nodes when `m` items from item index `idx` on
/// are replaced by `n` items: as far as old and new items pair up nothing
/// changes, and what is left over is inserted or deleted behind them.
pub open spec fn respread(parts: Seq<nat>, idx: int, m: int, n: int) -> Seq<nat> {
    if n >= m {
        spread(parts, idx + m, n - m)
    } else {
        trimmed(parts, idx + n, m - n)
    }
}

/// What becomes of a row of nodes when `n` items are inserted inside the
/// item at index `idx`: the first half of the item takes its place, the new
/// items are inserted behind it, and the second half behind them.
pub open spec fn spread_within(parts: Seq<nat>, idx: int, n: int) -> Seq<nat> {
    spread(spread(parts, idx + 1, n), idx + 1 + n, 1)
}

/// What becomes of the row of nodes of a list with items `s` when `n` items
/// are inserted at user position `target`.
pub open spec fn spread_for<Item: ListItem>(parts: Seq<nat>, s: Seq<Item>, target: nat, n: int) -> Seq<nat> {
    if offset_at(s, target) == 0 {
        spread(parts, index_at(s, target), n)
    } else {
        spread_within(parts, index_at(s, target), n)
    }
}

} // verus!
