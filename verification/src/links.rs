//! How the list's invariant carries over when one node changes size.

use vstd::prelude::*;
use crate::item::ListItem;
use crate::item::userlen;
use crate::model::prefix_sum;
use crate::model::next_from;
use crate::model::prev_from;
use crate::model::lemma_prefix_update;
use crate::model::lemma_next_props;
use crate::model::lemma_prev_props;
use crate::model::lemma_prev_unique;
use crate::node::SkipEntry;
use crate::node::NotifyTarget;
use crate::node::NODE_NUM_ITEMS;
use crate::skiplist::SkipList;

verus! {

impl<Item: ListItem, N: NotifyTarget<Item>> SkipList<Item, N> {
    /// Entry `l` of the link table of the node with handle `n`.
    pub(crate) open spec fn entry(&self, n: int, l: int) -> SkipEntry {
        self.nodes@[n].nexts@[l]
    }

    /// The same nodes in the same order with the same heights, parents and
    /// link targets as `pre`: only items, skip sizes and totals may differ.
    pub(crate) open spec fn same_frame(&self, pre: &Self) -> bool {
        &&& self.order@ == pre.order@
        &&& self.free@ == pre.free@
        &&& self.nodes@.len() == pre.nodes@.len()
        &&& forall|n: int|
            0 <= n < self.nodes@.len() ==> {
                &&& (#[trigger] self.nodes@[n]).height == pre.nodes@[n].height
                &&& self.nodes@[n].parent == pre.nodes@[n].parent
                &&& self.nodes@[n].nexts@.len() == pre.nodes@[n].nexts@.len()
            }
        &&& forall|n: int, l: int|
            0 <= n < self.nodes@.len() && 0 <= l < self.nodes@[n].nexts@.len() ==> (#[trigger] self.entry(
                n,
                l,
            )).node == pre.entry(n, l).node
    }

    /// The skip size that entry `l` of node `n` has once the node at position
    /// `t` has grown by `added` and shrunk by `removed`.
    pub(crate) open spec fn resized_skip(&self, t: int, added: int, removed: int, n: int, l: int) -> int {
        if l < self.head_height() && n == self.order@[prev_from(self.hs(), t, l)] {
            self.entry(n, l).skip_usersize + added - removed
        } else {
            self.entry(n, l).skip_usersize as int
        }
    }

    /// This list is `pre` after the node at position `t` has had its items
    /// changed, with every skip size that spans it and the totals adjusted.
    pub(crate) open spec fn resized(&self, pre: &Self, t: int, added: int, removed: int) -> bool {
        &&& self.same_frame(pre)
        &&& forall|n: int|
            0 <= n < self.nodes@.len() && n != pre.order@[t] ==> (#[trigger] self.nodes@[n]).items@
                == pre.nodes@[n].items@
        &&& userlen(self.node(t).items@) == userlen(pre.node(t).items@) + added - removed
        &&& 1 <= self.node(t).items@.len() <= NODE_NUM_ITEMS
        &&& self.num_items == pre.num_items + self.node(t).items@.len() - pre.node(t).items@.len()
        &&& self.num_usercount == pre.num_usercount + added - removed
        &&& forall|n: int, l: int|
            0 <= n < self.nodes@.len() && 0 <= l < self.nodes@[n].nexts@.len() ==> (#[trigger] self.entry(
                n,
                l,
            )).skip_usersize == pre.resized_skip(t, added, removed, n, l)
    }

    /// A list is still in order once one node has changed size and every link
    /// that spans it and the totals have followed.
    pub(crate) proof fn lemma_resized_inv(&self, pre: &Self, t: int, added: int, removed: int)
        requires
            pre.inv(),
            1 <= t < pre.len(),
            self.resized(pre, t, added, removed),
        ensures
            self.inv(),
            self.hs() == pre.hs(),
            self.contents() == pre.contents().update(t, self.node(t).items@),
            forall|k: int| 0 <= k <= t ==> self.start(k) == pre.start(k),
            forall|k: int| 0 <= k <= t ==> self.first_item(k) == pre.first_item(k),
    {
        let hs = pre.hs();
        let len = pre.len();
        assert(self.hs() =~= hs) by {
            assert forall|k: int| 0 <= k < len implies self.hs()[k] == hs[k] by {
                assert(self.nodes@[self.order@[k] as int].height == pre.nodes@[pre.order@[k] as int].height);
            }
        }
        let new_items = self.node(t).items@;
        assert(self.contents() =~= pre.contents().update(t, new_items)) by {
            assert forall|k: int| 0 <= k < len implies self.contents()[k] == pre.contents().update(
                t,
                new_items,
            )[k] by {
                if k != t {
                    assert(pre.order@[k] != pre.order@[t]);
                    assert(self.nodes@[self.order@[k] as int].items@ == pre.nodes@[pre.order@[k] as int].items@);
                }
            }
        }
        let szs = pre.szs();
        let cnts = pre.cnts();
        assert(self.szs() =~= szs.update(t, userlen(new_items)));
        assert(self.cnts() =~= cnts.update(t, new_items.len()));
        assert forall|k: int| 0 <= k <= len implies #[trigger] self.start(k) == if k <= t {
            pre.start(k) as int
        } else {
            pre.start(k) + added - removed
        } by {
            lemma_prefix_update(szs, t, userlen(new_items), k);
        }
        assert forall|k: int| 0 <= k <= len implies #[trigger] self.first_item(k) == if k <= t {
            pre.first_item(k) as int
        } else {
            pre.first_item(k) + new_items.len() - cnts[t]
        } by {
            lemma_prefix_update(cnts, t, new_items.len(), k);
        }
        assert(self.arena_ok());
        assert(self.head_ok()) by {
            assert(pre.order@[0] != pre.order@[t]);
            assert(self.nodes@[0].items@ == pre.nodes@[0].items@);
            assert forall|i: int| self.nodes@[0].height <= i < crate::node::MAX_HEIGHT implies (
            #[trigger] self.nodes@[0].nexts@[i]).node == crate::node::NULL by {
                assert(self.entry(0, i).node == pre.entry(0, i).node);
                assert(pre.nodes@[0].nexts@[i].node == crate::node::NULL);
            }
        }
        assert forall|k: int| 1 <= k < self.len() implies #[trigger] self.node_shape(k) by {
            assert(pre.node_shape(k));
            if k != t {
                assert(pre.order@[k] != pre.order@[t]);
                assert(self.nodes@[self.order@[k] as int].items@ == pre.nodes@[pre.order@[k] as int].items@);
            }
        }
        assert forall|k: int, i: int|
            0 <= k < self.len() && 0 <= i < self.node(k).height implies #[trigger] self.link_ok(k, i) by {
            assert(pre.link_ok(k, i));
            if k > 0 {
                assert(pre.node_shape(k));
            }
            let n = pre.order@[k] as int;
            let j = next_from(hs, k + 1, i);
            lemma_next_props(hs, k + 1, i);
            lemma_prev_props(hs, t, i);
            assert(self.entry(n, i).node == pre.entry(n, i).node);
            assert(self.entry(n, i).skip_usersize == pre.resized_skip(t, added, removed, n, i));
            let q = prev_from(hs, t, i);
            if k <= t && t < j {
                lemma_prev_unique(hs, t, i, k);
                assert(q == k);
            } else {
                if q == k {
                    assert(k <= t);
                    assert(j <= t);
                    assert(false);
                }
                assert(pre.order@[q] != pre.order@[k]);
            }
        }
        assert forall|k: int| 1 <= k < self.len() implies #[trigger] self.parent_ok(k) by {
            assert(pre.parent_ok(k));
        }
    }
}

} // verus!

verus! {

impl<Item: ListItem, N: NotifyTarget<Item>> SkipList<Item, N> {
    /// The link at level `l` that spans position `t` belongs to the last
    /// node at or before `t` that is taller than `l`; it carries at least
    /// the size of the node at `t` and at most the size of the list.
    pub(crate) proof fn lemma_owner_skip(&self, t: int, l: int)
        requires
            self.inv(),
            0 <= t < self.len(),
            0 <= l < self.head_height(),
        ensures
            0 <= prev_from(self.hs(), t, l) <= t,
            l < self.node(prev_from(self.hs(), t, l)).height,
            self.szs()[t] <= self.node(prev_from(self.hs(), t, l)).nexts@[l].skip_usersize,
            self.node(prev_from(self.hs(), t, l)).nexts@[l].skip_usersize + self.start(
                prev_from(self.hs(), t, l),
            ) <= self.num_usercount,
            self.start(t) + self.szs()[t] <= self.num_usercount,
    {
        let hs = self.hs();
        let q = prev_from(hs, t, l);
        lemma_prev_props(hs, t, l);
        if q > 0 {
            assert(self.node_shape(q));
        }
        assert(self.link_ok(q, l));
        lemma_next_props(hs, q + 1, l);
        let j = next_from(hs, q + 1, l);
        assert(t < j) by {
            if j <= t {
                assert(hs[j] <= l);
            }
        }
        crate::model::lemma_prefix_mono(self.szs(), t + 1, j);
        crate::model::lemma_prefix_mono(self.szs(), q, t);
        crate::model::lemma_prefix_mono(self.szs(), j, self.len());
        assert(self.start(t + 1) == self.start(t) + self.szs()[t]);
    }
}

} // verus!

verus! {

impl<Item: ListItem, N: NotifyTarget<Item>> SkipList<Item, N> {
    /// Replacing `m` items from offset `idx` of the node at position `c` by
    /// `x` does the same to the list's items at that place.
    pub(crate) proof fn lemma_view_replaced(&self, pre: &Self, c: int, idx: int, m: int, x: Seq<Item>)
        requires
            0 <= c < pre.len(),
            0 <= idx,
            0 <= m,
            idx + m <= pre.contents()[c].len(),
            self.contents() == pre.contents().update(
                c,
                pre.contents()[c].take(idx) + x + pre.contents()[c].skip(idx + m),
            ),
        ensures
            pre.first_item(c) + idx + m <= pre@.len(),
            self@ == pre@.take(pre.first_item(c) + idx) + x + pre@.skip(pre.first_item(c) + idx + m),
    {
        self.lemma_unfold();
        pre.lemma_unfold();
        let ss = pre.contents();
        let tt = self.contents();
        crate::model::lemma_flatten_at(tt, c);
        assert(tt.take(c) =~= ss.take(c));
        assert(tt.skip(c + 1) =~= ss.skip(c + 1));
        crate::model::lemma_flatten_index(ss, c, idx);
        crate::model::lemma_flatten_index(ss, c, idx + m);
        let i = pre.first_item(c) + idx;
        assert(self@ =~= pre@.take(i) + x + pre@.skip(i + m));
    }

    /// A cursor at or just before the node that changed size is still a
    /// cursor once it has moved by `moved` user units.
    pub(crate) proof fn lemma_resized_cursor(
        &self,
        pre: &Self,
        t: int,
        added: int,
        removed: int,
        cur: &crate::cursor::Cursor,
        now: &crate::cursor::Cursor,
        moved: int,
    )
        requires
            pre.inv(),
            1 <= t < pre.len(),
            self.resized(pre, t, added, removed),
            pre.cursor_ok(cur),
            t == cur.pos@ || t == cur.pos@ + 1,
            now.pos@ == cur.pos@,
            now.userpos == cur.userpos + moved,
            now.local_index <= self.node(now.pos@).items@.len(),
            self.item_start(now) <= now.userpos,
            forall|l: int|
                0 <= l < crate::node::MAX_HEIGHT ==> (#[trigger] now.entries[l]).node == cur.entries[l].node,
            forall|l: int|
                0 <= l < crate::node::MAX_HEIGHT ==> (#[trigger] now.entries[l]).skip_usersize == if l
                    < pre.head_height() {
                    cur.entries[l].skip_usersize + moved
                } else {
                    cur.entries[l].skip_usersize as int
                },
        ensures
            self.cursor_ok(now),
    {
        self.lemma_resized_inv(pre, t, added, removed);
        assert forall|l: int| 0 <= l < crate::node::MAX_HEIGHT implies #[trigger] self.entry_ok(now, l) by {
            assert(pre.entry_ok(cur, l));
            lemma_prev_props(pre.hs(), cur.pos@, l);
            assert(now.entries[l].node == cur.entries[l].node);
        }
    }
}

} // verus!

verus! {

impl<Item: ListItem, N: NotifyTarget<Item>> SkipList<Item, N> {
    /// A cursor of `pre` is a cursor of a list with the same nodes.
    pub(crate) proof fn lemma_frame_cursor(&self, pre: &Self, cur: &crate::cursor::Cursor)
        requires
            pre.inv(),
            self.same_list(pre),
            self.arena_ok(),
            pre.cursor_ok(cur),
        ensures
            self.cursor_ok(cur),
            self.residual(cur) == pre.residual(cur),
            self.cursor_index(cur) == pre.cursor_index(cur),
            self.node(cur.pos@) == pre.node(cur.pos@),
    {
        self.lemma_frame(pre);
        assert(self.nodes@[pre.order@[cur.pos@] as int] == pre.node(cur.pos@));
        assert(self.nodes@[pre.order@[0] as int] == pre.node(0));
        assert forall|l: int| 0 <= l < crate::node::MAX_HEIGHT implies #[trigger] self.entry_ok(cur, l) by {
            assert(pre.entry_ok(cur, l));
        }
    }

    /// The list is `pre` with one more level in use in the head.
    pub(crate) open spec fn raised(&self, pre: &Self) -> bool {
        let h = pre.head_height();
        &&& self.order@ == pre.order@
        &&& self.free@ == pre.free@
        &&& self.num_items == pre.num_items
        &&& self.num_usercount == pre.num_usercount
        &&& self.nodes@.len() == pre.nodes@.len()
        &&& forall|n: int| 1 <= n < self.nodes@.len() ==> #[trigger] self.nodes@[n] == pre.nodes@[n]
        &&& self.nodes@[0].items == pre.nodes@[0].items
        &&& self.nodes@[0].parent == pre.nodes@[0].parent
        &&& self.nodes@[0].height == h + 1
        &&& self.nodes@[0].nexts@.len() == pre.nodes@[0].nexts@.len()
        &&& forall|l: int|
            0 <= l < self.nodes@[0].nexts@.len() && l != h ==> #[trigger] self.nodes@[0].nexts@[l]
                == pre.nodes@[0].nexts@[l]
        &&& self.nodes@[0].nexts@[h].node == pre.nodes@[0].nexts@[h].node
        &&& self.nodes@[0].nexts@[h].skip_usersize == pre.num_usercount
    }

    /// A list and a cursor are still in order with one more level in use.
    pub(crate) proof fn lemma_raised(&self, pre: &Self, cur: &crate::cursor::Cursor, now: &crate::cursor::Cursor)
        requires
            pre.inv(),
            pre.cursor_ok(cur),
            pre.head_height() < crate::node::MAX_HEIGHT,
            self.raised(pre),
            now.pos == cur.pos,
            now.local_index == cur.local_index,
            now.userpos == cur.userpos,
            forall|l: int|
                0 <= l < crate::node::MAX_HEIGHT && l != pre.head_height() ==> #[trigger] now.entries[l]
                    == cur.entries[l],
            now.entries[pre.head_height()].node == cur.entries[pre.head_height()].node,
            now.entries[pre.head_height()].skip_usersize == cur.userpos,
        ensures
            self.inv(),
            self.cursor_ok(now),
            self.hs() == pre.hs(),
            self.contents() == pre.contents(),
            self@ == pre@,
    {
        let h = pre.head_height();
        let hs = pre.hs();
        self.lemma_unfold();
        pre.lemma_unfold();
        assert forall|k: int| 1 <= k < self.len() implies #[trigger] self.node(k) == pre.node(k) by {
            assert(pre.order@[k] != pre.order@[0]);
            assert(self.nodes@[pre.order@[k] as int] == pre.nodes@[pre.order@[k] as int]);
        }
        assert(self.contents() =~= pre.contents());
        assert(self.hs() =~= pre.hs());
        assert forall|i: int| self.nodes@[0].height <= i < crate::node::MAX_HEIGHT implies (
        #[trigger] self.nodes@[0].nexts@[i]).node == crate::node::NULL by {
            assert(pre.nodes@[0].nexts@[i].node == crate::node::NULL);
        }
        assert forall|k: int| 1 <= k < self.len() implies #[trigger] self.node_shape(k) by {
            assert(pre.node_shape(k));
        }
        assert forall|m: int| 0 < m < pre.len() implies hs[m] <= h by {
            assert(pre.node_shape(m));
        }
        assert forall|k: int, i: int|
            0 <= k < self.len() && 0 <= i < self.node(k).height implies #[trigger] self.link_ok(k, i) by {
            if k == 0 && i == h {
                crate::model::lemma_next_unique(hs, 1, i, pre.len());
                assert(pre.nodes@[0].nexts@[h].node == crate::node::NULL);
            } else {
                assert(pre.link_ok(k, i));
                if k == 0 {
                    assert(self.nodes@[0].nexts@[i] == pre.nodes@[0].nexts@[i]);
                }
            }
        }
        assert forall|k: int| 1 <= k < self.len() implies #[trigger] self.parent_ok(k) by {
            assert(pre.parent_ok(k));
        }
        assert forall|l: int| 0 <= l < crate::node::MAX_HEIGHT implies #[trigger] self.entry_ok(now, l) by {
            assert(pre.entry_ok(cur, l));
            if l == h {
                assert forall|m: int| 0 < m <= cur.pos@ implies hs[m] <= l by {
                    assert(pre.node_shape(m));
                }
                lemma_prev_unique(hs, cur.pos@, l, 0);
            } else {
                assert(now.entries[l] == cur.entries[l]);
            }
        }
        if cur.pos@ > 0 {
            assert(self.node(cur.pos@) == pre.node(cur.pos@));
        }
    }

    /// The list is `pre` but for the parents of its nodes.
    pub(crate) open spec fn same_but_parents(&self, pre: &Self) -> bool {
        &&& self.order@ == pre.order@
        &&& self.free@ == pre.free@
        &&& self.num_items == pre.num_items
        &&& self.num_usercount == pre.num_usercount
        &&& self.nodes@.len() == pre.nodes@.len()
        &&& self.nodes@[0].parent == pre.nodes@[0].parent
        &&& forall|n: int|
            0 <= n < self.nodes@.len() ==> {
                &&& (#[trigger] self.nodes@[n]).items == pre.nodes@[n].items
                &&& self.nodes@[n].height == pre.nodes@[n].height
                &&& self.nodes@[n].nexts == pre.nodes@[n].nexts
            }
    }

    /// A list that differs from one in order only in its parents is in order
    /// but for the parents, and holds the same items.
    pub(crate) proof fn lemma_parents_frame(&self, pre: &Self)
        requires
            pre.inv_no_parents(),
            self.same_but_parents(pre),
        ensures
            self.inv_no_parents(),
            self.hs() == pre.hs(),
            self.contents() == pre.contents(),
            self@ == pre@,
    {
        self.lemma_unfold();
        pre.lemma_unfold();
        assert forall|k: int| 0 <= k < self.len() implies self.hs()[k] == pre.hs()[k] && self.contents()[k]
            == pre.contents()[k] by {
            let n = pre.order@[k] as int;
            assert(self.nodes@[n].items == pre.nodes@[n].items);
        }
        assert(self.contents() =~= pre.contents());
        assert(self.hs() =~= pre.hs());
        assert(self.nodes@[0].items == pre.nodes@[0].items);
        assert forall|k: int| 1 <= k < self.len() implies #[trigger] self.node_shape(k) by {
            assert(pre.node_shape(k));
            assert(self.nodes@[pre.order@[k] as int].items == pre.nodes@[pre.order@[k] as int].items);
        }
        assert forall|k: int, i: int|
            0 <= k < self.len() && 0 <= i < self.node(k).height implies #[trigger] self.link_ok(k, i) by {
            assert(self.nodes@[pre.order@[k] as int].items == pre.nodes@[pre.order@[k] as int].items);
            assert(pre.link_ok(k, i));
        }
    }

    /// A cursor does not depend on the parents.
    pub(crate) proof fn lemma_parents_frame_cursor(&self, pre: &Self, cur: &crate::cursor::Cursor)
        requires
            pre.inv_no_parents(),
            self.same_but_parents(pre),
            pre.cursor_ok(cur),
        ensures
            self.cursor_ok(cur),
            self.residual(cur) == pre.residual(cur),
            self.cursor_index(cur) == pre.cursor_index(cur),
            self.node(cur.pos@).items == pre.node(cur.pos@).items,
    {
        self.lemma_parents_frame(pre);
        assert(self.nodes@[pre.order@[cur.pos@] as int].items == pre.nodes@[pre.order@[cur.pos@] as int].items);
        assert(self.nodes@[0].items == pre.nodes@[0].items);
        assert forall|l: int| 0 <= l < crate::node::MAX_HEIGHT implies #[trigger] self.entry_ok(cur, l) by {
            assert(pre.entry_ok(cur, l));
        }
    }
}

impl<Item: ListItem, N: NotifyTarget<Item>> SkipList<Item, N> {
    /// A cursor that stood inside an item and has moved back to the start
    /// of that item is a cursor that stands between two items.
    pub(crate) proof fn lemma_cursor_moved_back(&self, cur: &crate::cursor::Cursor, now: &crate::cursor::Cursor)
        requires
            self.inv(),
            self.cursor_ok(cur),
            now.pos == cur.pos,
            now.local_index == cur.local_index,
            now.userpos == cur.userpos - self.residual(cur),
            forall|l: int|
                0 <= l < crate::node::MAX_HEIGHT ==> (#[trigger] now.entries[l]).node == cur.entries[l].node,
            forall|l: int|
                0 <= l < crate::node::MAX_HEIGHT ==> (#[trigger] now.entries[l]).skip_usersize == if l
                    < self.head_height() {
                    cur.entries[l].skip_usersize - self.residual(cur)
                } else {
                    cur.entries[l].skip_usersize as int
                },
        ensures
            self.cursor_ok(now),
            self.residual(now) == 0,
            self.cursor_index(now) == self.cursor_index(cur),
    {
        assert forall|l: int| 0 <= l < crate::node::MAX_HEIGHT implies #[trigger] self.entry_ok(now, l) by {
            assert(self.entry_ok(cur, l));
        }
    }

    /// Every entry of a cursor is at least as far into its node as the
    /// cursor is into its item.
    pub(crate) proof fn lemma_cursor_skips(&self, cur: &crate::cursor::Cursor)
        requires
            self.inv(),
            self.cursor_ok(cur),
        ensures
            forall|l: int|
                0 <= l < self.head_height() ==> (#[trigger] cur.entries[l]).skip_usersize >= self.residual(cur),
            forall|l: int| 0 <= l < self.head_height() ==> (#[trigger] cur.entries[l]).skip_usersize <= cur.userpos,
    {
        assert forall|l: int| 0 <= l < self.head_height() implies (#[trigger] cur.entries[l]).skip_usersize
            >= self.residual(cur) && cur.entries[l].skip_usersize <= cur.userpos by {
            assert(self.entry_ok(cur, l));
            lemma_prev_props(self.hs(), cur.pos@, l);
            crate::model::lemma_prefix_mono(self.szs(), prev_from(self.hs(), cur.pos@, l), cur.pos@);
        }
    }
}

} // verus!
