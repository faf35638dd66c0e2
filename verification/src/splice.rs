//! How the list's invariant carries over when a node is linked in behind
//! the cursor.

use vstd::prelude::*;
use crate::item::ListItem;
use crate::item::userlen;
use crate::model::prefix_sum;
use crate::model::next_from;
use crate::model::prev_from;
use crate::model::lemma_prefix_insert;
use crate::model::lemma_next_props;
use crate::model::lemma_next_unique;
use crate::model::lemma_prev_props;
use crate::model::lemma_prev_unique;
use crate::cursor::Cursor;
use crate::node::NotifyTarget;
use crate::node::HEAD;
use crate::node::NULL;
use crate::node::MAX_HEIGHT;
use crate::node::NODE_NUM_ITEMS;
use crate::skiplist::SkipList;

verus! {

impl<Item: ListItem, N: NotifyTarget<Item>> SkipList<Item, N> {
    /// The node that entry `l` of node `n` leads to once node `id` is linked
    /// in behind the cursor.
    pub(crate) open spec fn spliced_node(&self, cur: &Cursor, id: usize, n: int, l: int) -> usize {
        let hn = self.nodes@[id as int].height as int;
        let prev = cur.entries[l].node as int;
        if n == id {
            self.entry(prev, l).node
        } else if l < hn && n == prev {
            id
        } else {
            self.entry(n, l).node
        }
    }

    /// The skip size of entry `l` of node `n` once node `id`, of user size
    /// `size`, is linked in behind the cursor.
    pub(crate) open spec fn spliced_skip(&self, cur: &Cursor, id: usize, size: int, n: int, l: int) -> int {
        let hn = self.nodes@[id as int].height as int;
        let prev = cur.entries[l].node as int;
        if n == id {
            size + self.entry(prev, l).skip_usersize - cur.entries[l].skip_usersize
        } else if l < self.head_height() && n == prev {
            if l < hn {
                cur.entries[l].skip_usersize as int
            } else {
                self.entry(n, l).skip_usersize + size
            }
        } else {
            self.entry(n, l).skip_usersize as int
        }
    }

    /// Node `id` is filled, out of the list, and can be linked in behind the
    /// cursor, which stands at the end of its node.
    pub(crate) open spec fn splice_ready(&self, cur: &Cursor, id: usize) -> bool {
        &&& self.inv()
        &&& self.cursor_ok(cur)
        &&& cur.local_index == self.node(cur.pos@).items@.len()
        &&& self.residual(cur) == 0
        &&& id < self.nodes@.len()
        &&& !self.order@.contains(id)
        &&& !self.free@.contains(id)
        &&& 1 <= self.nodes@[id as int].height <= self.head_height()
        &&& self.nodes@[id as int].nexts@.len() == self.nodes@[id as int].height
        &&& 1 <= self.nodes@[id as int].items@.len() <= NODE_NUM_ITEMS
    }

    /// This list is `pre` with node `id` linked in behind the cursor; parents
    /// of the nodes behind it are not yet looked after.
    pub(crate) open spec fn spliced(&self, pre: &Self, cur: &Cursor, id: usize) -> bool {
        let size = userlen(pre.nodes@[id as int].items@) as int;
        &&& self.order@ == pre.order@.insert(cur.pos@ + 1, id)
        &&& self.free@ == pre.free@
        &&& self.nodes@.len() == pre.nodes@.len()
        &&& forall|n: int|
            0 <= n < self.nodes@.len() ==> {
                &&& (#[trigger] self.nodes@[n]).height == pre.nodes@[n].height
                &&& self.nodes@[n].items@ == pre.nodes@[n].items@
                &&& self.nodes@[n].nexts@.len() == pre.nodes@[n].nexts@.len()
                &&& n != id ==> self.nodes@[n].parent == pre.nodes@[n].parent
            }
        &&& self.nodes@[id as int].parent == (if pre.nodes@[id as int].height == MAX_HEIGHT {
            HEAD
        } else {
            cur.entries[pre.nodes@[id as int].height as int].node
        })
        &&& forall|n: int, l: int|
            0 <= n < self.nodes@.len() && 0 <= l < self.nodes@[n].nexts@.len() ==> {
                &&& (#[trigger] self.entry(n, l)).node == pre.spliced_node(cur, id, n, l)
                &&& self.entry(n, l).skip_usersize == pre.spliced_skip(cur, id, size, n, l)
            }
        &&& self.num_items == pre.num_items + pre.nodes@[id as int].items@.len()
        &&& self.num_usercount == pre.num_usercount + size
    }

    /// Heights, items and sizes by position once a node is linked in.
    pub(crate) proof fn lemma_spliced_seqs(&self, pre: &Self, cur: &Cursor, id: usize)
        requires
            pre.splice_ready(cur, id),
            self.spliced(pre, cur, id),
        ensures
            self.len() == pre.len() + 1,
            self.arena_ok(),
            self.hs() == pre.hs().insert(cur.pos@ + 1, pre.nodes@[id as int].height as int),
            self.contents() == pre.contents().insert(cur.pos@ + 1, pre.nodes@[id as int].items@),
            cur.userpos == pre.start(cur.pos@ + 1),
            forall|k: int|
                0 <= k <= self.len() ==> #[trigger] self.start(k) == if k <= cur.pos@ + 1 {
                    pre.start(k)
                } else {
                    pre.start(k - 1) + userlen(pre.nodes@[id as int].items@)
                },
            forall|k: int|
                0 <= k <= self.len() ==> #[trigger] self.first_item(k) == if k <= cur.pos@ + 1 {
                    pre.first_item(k)
                } else {
                    pre.first_item(k - 1) + pre.nodes@[id as int].items@.len()
                },
    {
        let p = cur.pos@ + 1;
        let hn = pre.nodes@[id as int].height as int;
        let x = pre.nodes@[id as int].items@;
        let ord = pre.order@;
        let ord2 = self.order@;
        assert forall|a: int, b: int| 0 <= a < ord2.len() && 0 <= b < ord2.len() && a != b implies ord2[a]
            != ord2[b] by {
            let a0 = if a < p {
                a
            } else {
                a - 1
            };
            let b0 = if b < p {
                b
            } else {
                b - 1
            };
            if a != p && b != p {
                assert(ord[a0] != ord[b0]);
            } else if a == p {
                assert(ord.contains(ord[b0]));
            } else {
                assert(ord.contains(ord[a0]));
            }
        }
        assert forall|j: int| 0 <= j < self.free@.len() implies (#[trigger] self.free@[j]) < self.nodes@.len()
            && !self.order@.contains(self.free@[j]) by {
            let f = self.free@[j];
            assert(pre.free@.contains(f));
            if ord2.contains(f) {
                let a = choose|a: int| 0 <= a < ord2.len() && ord2[a] == f;
                let a0 = if a < p {
                    a
                } else {
                    a - 1
                };
                if a != p {
                    assert(ord.contains(ord[a0]));
                }
            }
        }
        assert forall|k: int| 0 <= k < ord2.len() implies (#[trigger] ord2[k]) < self.nodes@.len() by {
            if k < p {
                assert(ord[k] < pre.nodes@.len());
            } else if k > p {
                assert(ord[k - 1] < pre.nodes@.len());
            }
        }
        assert forall|k: int| 0 <= k < ord2.len() implies self.hs()[k] == pre.hs().insert(p, hn)[k]
            && self.contents()[k] == pre.contents().insert(p, x)[k] by {
            let n = ord2[k] as int;
            assert(self.nodes@[n].height == pre.nodes@[n].height);
            assert(self.nodes@[n].items@ == pre.nodes@[n].items@);
            assert(self.contents()[k] == self.nodes@[n].items@);
            if k < p {
                assert(pre.contents().insert(p, x)[k] == pre.contents()[k]);
                assert(pre.hs().insert(p, hn)[k] == pre.hs()[k]);
                assert(ord2[k] == ord[k]);
                assert(pre.contents()[k] == pre.nodes@[n].items@);
                assert(self.contents()[k] == pre.contents().insert(p, x)[k]);
                assert(self.hs()[k] == pre.hs().insert(p, hn)[k]);
            } else if k == p {
                assert(pre.contents().insert(p, x)[k] == x);
                assert(pre.hs().insert(p, hn)[k] == hn);
                assert(self.contents()[k] == pre.contents().insert(p, x)[k]);
                assert(self.hs()[k] == pre.hs().insert(p, hn)[k]);
            } else {
                assert(pre.contents().insert(p, x)[k] == pre.contents()[k - 1]);
                assert(pre.hs().insert(p, hn)[k] == pre.hs()[k - 1]);
                assert(ord2[k] == ord[k - 1]);
                assert(pre.contents()[k - 1] == pre.nodes@[n].items@);
            }
            assert(self.contents()[k] == pre.contents().insert(p, x)[k]);
            assert(self.hs()[k] == pre.hs().insert(p, hn)[k]);
        }
        assert(self.hs() =~= pre.hs().insert(p, hn));
        assert(self.contents() =~= pre.contents().insert(p, x));
        assert(self.szs() =~= pre.szs().insert(p, userlen(x)));
        assert(self.cnts() =~= pre.cnts().insert(p, x.len()));
        assert forall|k: int| 0 <= k <= self.len() implies #[trigger] self.start(k) == if k <= p {
            pre.start(k)
        } else {
            pre.start(k - 1) + userlen(x)
        } by {
            lemma_prefix_insert(pre.szs(), p, userlen(x), k);
        }
        assert forall|k: int| 0 <= k <= self.len() implies #[trigger] self.first_item(k) == if k <= p {
            pre.first_item(k)
        } else {
            pre.first_item(k - 1) + x.len()
        } by {
            lemma_prefix_insert(pre.cnts(), p, x.len(), k);
        }
        let items = pre.node(cur.pos@).items@;
        assert(items.take(cur.local_index as int) =~= items);
        assert(pre.start(p) == pre.start(p - 1) + pre.szs()[p - 1]);
    }
}

} // verus!

verus! {

impl<Item: ListItem, N: NotifyTarget<Item>> SkipList<Item, N> {
    /// The link of the new node at level `i`.
    pub(crate) proof fn lemma_spliced_link_new(&self, pre: &Self, cur: &Cursor, id: usize, i: int)
        requires
            pre.splice_ready(cur, id),
            self.spliced(pre, cur, id),
            0 <= i < pre.nodes@[id as int].height,
        ensures
            self.link_ok(cur.pos@ + 1, i),
    {
        self.lemma_spliced_seqs(pre, cur, id);
        let c = cur.pos@;
        let p = c + 1;
        let size = userlen(pre.nodes@[id as int].items@) as int;
        let hs = pre.hs();
        let hs2 = self.hs();
        let n = id as int;
        assert(self.order@[p] == id);
        assert(self.nodes@[n].height == pre.nodes@[n].height);
        assert(self.entry(n, i).node == pre.spliced_node(cur, id, n, i));
        assert(self.entry(n, i).skip_usersize == pre.spliced_skip(cur, id, size, n, i));
        let q = prev_from(hs, c, i);
        lemma_prev_props(hs, c, i);
        assert(pre.entry_ok(cur, i));
        pre.lemma_owner_skip(c, i);
        assert(pre.link_ok(q, i));
        let j = next_from(hs, q + 1, i);
        lemma_next_props(hs, q + 1, i);
        assert(j > c) by {
            if j <= c {
                assert(hs[j] <= i);
            }
        }
        lemma_next_unique(hs2, p + 1, i, j + 1);
        assert(self.start(j + 1) == pre.start(j) + size);
        assert(self.start(p) == pre.start(p));
    }

    /// The link at level `i` of a node before the new one.
    #[verifier::rlimit(20)]
    pub(crate) proof fn lemma_spliced_link_before(&self, pre: &Self, cur: &Cursor, id: usize, k: int, i: int)
        requires
            pre.splice_ready(cur, id),
            self.spliced(pre, cur, id),
            0 <= k <= cur.pos@,
            0 <= i < pre.node(k).height,
        ensures
            self.link_ok(k, i),
    {
        self.lemma_spliced_seqs(pre, cur, id);
        let c = cur.pos@;
        let p = c + 1;
        let hn = pre.nodes@[id as int].height as int;
        let size = userlen(pre.nodes@[id as int].items@) as int;
        let hs = pre.hs();
        let hs2 = self.hs();
        let n = pre.order@[k] as int;
        assert(self.order@[k] == n);
        assert(pre.order@.contains(pre.order@[k]));
        if k > 0 {
            assert(pre.node_shape(k));
        }
        assert(self.nodes@[n].height == pre.nodes@[n].height);
        assert(self.entry(n, i).node == pre.spliced_node(cur, id, n, i));
        assert(self.entry(n, i).skip_usersize == pre.spliced_skip(cur, id, size, n, i));
        let q = prev_from(hs, c, i);
        lemma_prev_props(hs, c, i);
        assert(pre.entry_ok(cur, i));
        assert(pre.link_ok(k, i));
        let j = next_from(hs, k + 1, i);
        lemma_next_props(hs, k + 1, i);
        assert(self.start(k) == pre.start(k));
        if k == q {
            assert(j > c) by {
                if j <= c {
                    assert(hs[j] <= i);
                }
            }
            if i < hn {
                lemma_next_unique(hs2, k + 1, i, p);
                assert(self.start(p) == pre.start(p));
            } else {
                lemma_next_unique(hs2, k + 1, i, j + 1);
                assert(self.start(j + 1) == pre.start(j) + size);
            }
        } else {
            assert(k < q) by {
                if k > q {
                    assert(hs[k] <= i);
                }
            }
            assert(j <= q) by {
                if j > q {
                    assert(hs[q] <= i);
                }
            }
            lemma_next_unique(hs2, k + 1, i, j);
            assert(pre.order@[q] != pre.order@[k]);
            assert(self.start(j) == pre.start(j));
        }
    }

    /// The link at level `i` of a node behind the new one.
    #[verifier::rlimit(20)]
    pub(crate) proof fn lemma_spliced_link_after(&self, pre: &Self, cur: &Cursor, id: usize, k: int, i: int)
        requires
            pre.splice_ready(cur, id),
            self.spliced(pre, cur, id),
            cur.pos@ + 1 <= k < pre.len(),
            0 <= i < pre.node(k).height,
        ensures
            self.link_ok(k + 1, i),
    {
        self.lemma_spliced_seqs(pre, cur, id);
        let c = cur.pos@;
        let p = c + 1;
        let size = userlen(pre.nodes@[id as int].items@) as int;
        let hs = pre.hs();
        let hs2 = self.hs();
        let n = pre.order@[k] as int;
        assert(self.order@[k + 1] == n);
        assert(pre.order@.contains(pre.order@[k]));
        assert(pre.node_shape(k));
        assert(self.nodes@[n].height == pre.nodes@[n].height);
        assert(self.entry(n, i).node == pre.spliced_node(cur, id, n, i));
        assert(self.entry(n, i).skip_usersize == pre.spliced_skip(cur, id, size, n, i));
        let q = prev_from(hs, c, i);
        lemma_prev_props(hs, c, i);
        assert(pre.entry_ok(cur, i));
        assert(pre.link_ok(k, i));
        let j = next_from(hs, k + 1, i);
        lemma_next_props(hs, k + 1, i);
        lemma_next_unique(hs2, k + 2, i, j + 1);
        assert(pre.order@[q] != pre.order@[k]);
        assert(self.start(j + 1) == pre.start(j) + size);
        assert(self.start(k + 1) == pre.start(k) + size);
    }

    /// Every link is as it should be once a node is linked in.
    pub(crate) proof fn lemma_spliced_link(&self, pre: &Self, cur: &Cursor, id: usize, k: int, i: int)
        requires
            pre.splice_ready(cur, id),
            self.spliced(pre, cur, id),
            0 <= k < self.len(),
            0 <= i < self.node(k).height,
        ensures
            self.link_ok(k, i),
    {
        let p = cur.pos@ + 1;
        let n = self.order@[k] as int;
        assert(self.nodes@[n].height == pre.nodes@[n].height) by {
            self.lemma_spliced_seqs(pre, cur, id);
        }
        if k == p {
            self.lemma_spliced_link_new(pre, cur, id, i);
        } else if k < p {
            self.lemma_spliced_link_before(pre, cur, id, k, i);
        } else {
            self.lemma_spliced_link_after(pre, cur, id, k - 1, i);
        }
    }

    /// A list with a node linked in is in order, but for the parents of the
    /// nodes behind the new one.
    pub(crate) proof fn lemma_spliced_inv(&self, pre: &Self, cur: &Cursor, id: usize)
        requires
            pre.splice_ready(cur, id),
            self.spliced(pre, cur, id),
        ensures
            self.inv_no_parents(),
    {
        self.lemma_spliced_seqs(pre, cur, id);
        let p = cur.pos@ + 1;
        assert(self.head_ok()) by {
            assert(self.nodes@[0].height == pre.nodes@[0].height);
            assert forall|i: int| self.nodes@[0].height <= i < MAX_HEIGHT implies (
            #[trigger] self.nodes@[0].nexts@[i]).node == NULL by {
                assert(self.entry(0, i).node == pre.spliced_node(cur, id, 0, i));
                assert(pre.nodes@[0].nexts@[i].node == NULL);
                assert(pre.order@.contains(pre.order@[0]));
            }
        }
        assert forall|k: int| 1 <= k < self.len() implies #[trigger] self.node_shape(k) by {
            let n = self.order@[k] as int;
            assert(self.nodes@[n].height == pre.nodes@[n].height);
            assert(self.nodes@[0].height == pre.nodes@[0].height);
            if k < p {
                assert(pre.node_shape(k));
            } else if k > p {
                assert(pre.node_shape(k - 1));
            }
        }
        assert forall|k: int, i: int|
            0 <= k < self.len() && 0 <= i < self.node(k).height implies #[trigger] self.link_ok(k, i) by {
            self.lemma_spliced_link(pre, cur, id, k, i);
        }
    }
}

} // verus!

verus! {

impl<Item: ListItem, N: NotifyTarget<Item>> SkipList<Item, N> {
    /// The parent of node `k` is what it was before the node at position `p`
    /// came into the list: the nearest taller node before it, not counting
    /// the one at `p`.
    pub(crate) open spec fn parent_ok_without(&self, p: int, k: int) -> bool {
        self.node(k).parent == self.order@[prev_from(self.hs().update(p, 0), k - 1, self.node(k).height as int)]
    }

    /// After the links are in place, the new node and all before it have
    /// their parents; the nodes behind it still have the parents they had.
    pub(crate) proof fn lemma_spliced_parent(&self, pre: &Self, cur: &Cursor, id: usize, k: int)
        requires
            pre.splice_ready(cur, id),
            self.spliced(pre, cur, id),
            1 <= k < self.len(),
        ensures
            k <= cur.pos@ + 1 ==> self.parent_ok(k),
            k > cur.pos@ + 1 ==> self.parent_ok_without(cur.pos@ + 1, k),
    {
        self.lemma_spliced_seqs(pre, cur, id);
        let c = cur.pos@;
        let p = c + 1;
        let hn = pre.nodes@[id as int].height as int;
        let hs = pre.hs();
        let hs2 = self.hs();
        let n = self.order@[k] as int;
        assert(self.nodes@[n].height == pre.nodes@[n].height);
        let h = self.nodes@[n].height as int;
        if k < p {
            assert(pre.parent_ok(k));
            assert(pre.order@.contains(pre.order@[k]));
            let qq = prev_from(hs, k - 1, h);
            lemma_prev_props(hs, k - 1, h);
            lemma_prev_unique(hs2, k - 1, h, qq);
        } else if k == p {
            let qq = prev_from(hs, c, h);
            lemma_prev_props(hs, c, h);
            lemma_prev_unique(hs2, c, h, qq);
            if hn < MAX_HEIGHT {
                assert(pre.entry_ok(cur, hn));
            } else {
                assert forall|m: int| 0 < m <= c implies hs[m] <= hn by {
                    assert(pre.node_shape(m));
                }
                lemma_prev_unique(hs, c, hn, 0);
            }
        } else {
            let k0 = k - 1;
            assert(pre.parent_ok(k0));
            assert(pre.order@.contains(pre.order@[k0]));
            let qq = prev_from(hs, k0 - 1, h);
            lemma_prev_props(hs, k0 - 1, h);
            let qq2 = if qq < p {
                qq
            } else {
                qq + 1
            };
            lemma_prev_unique(hs2.update(p, 0), k - 1, h, qq2);
        }
    }

    /// The cursor is still a cursor of the list with the new node in it.
    pub(crate) proof fn lemma_spliced_cursor_stays(&self, pre: &Self, cur: &Cursor, id: usize)
        requires
            pre.splice_ready(cur, id),
            self.spliced(pre, cur, id),
        ensures
            self.cursor_ok(cur),
            self.residual(cur) == 0,
            self.cursor_index(cur) == pre.cursor_index(cur),
    {
        self.lemma_spliced_seqs(pre, cur, id);
        let c = cur.pos@;
        let hs = pre.hs();
        let hs2 = self.hs();
        assert(self.order@[c] == pre.order@[c]);
        assert(self.nodes@[pre.order@[c] as int].items@ == pre.nodes@[pre.order@[c] as int].items@);
        assert(self.nodes@[0].height == pre.nodes@[0].height);
        assert(self.start(c) == pre.start(c));
        assert(self.first_item(c) == pre.first_item(c));
        assert forall|l: int| 0 <= l < MAX_HEIGHT implies #[trigger] self.entry_ok(cur, l) by {
            assert(pre.entry_ok(cur, l));
            let q = prev_from(hs, c, l);
            lemma_prev_props(hs, c, l);
            lemma_prev_unique(hs2, c, l, q);
            assert(self.start(q) == pre.start(q));
        }
    }

    /// The cursor that has stepped over the new node.
    pub(crate) open spec fn stepped_over(&self, cur: &Cursor, now: &Cursor, id: usize) -> bool {
        let hn = self.nodes@[id as int].height as int;
        let size = userlen(self.nodes@[id as int].items@) as int;
        &&& now.pos@ == cur.pos@ + 1
        &&& now.local_index == self.nodes@[id as int].items@.len()
        &&& now.userpos == cur.userpos + size
        &&& forall|l: int|
            0 <= l < MAX_HEIGHT ==> (#[trigger] now.entries[l]).node == if l < hn {
                id
            } else {
                cur.entries[l].node
            }
        &&& forall|l: int|
            0 <= l < MAX_HEIGHT ==> (#[trigger] now.entries[l]).skip_usersize == if l < hn {
                size
            } else if l < self.head_height() {
                cur.entries[l].skip_usersize + size
            } else {
                cur.entries[l].skip_usersize as int
            }
    }

    /// The cursor that has stepped over the new node is a cursor of the list
    /// with that node in it.
    pub(crate) proof fn lemma_spliced_cursor_moves(&self, pre: &Self, cur: &Cursor, now: &Cursor, id: usize)
        requires
            pre.splice_ready(cur, id),
            self.spliced(pre, cur, id),
            pre.stepped_over(cur, now, id),
        ensures
            self.cursor_ok(now),
            self.residual(now) == 0,
            self.cursor_index(now) == pre.cursor_index(cur) + pre.nodes@[id as int].items@.len(),
            now.local_index == self.node(now.pos@).items@.len(),
    {
        self.lemma_spliced_seqs(pre, cur, id);
        let c = cur.pos@;
        let p = c + 1;
        let hn = pre.nodes@[id as int].height as int;
        let hs = pre.hs();
        let hs2 = self.hs();
        let x = pre.nodes@[id as int].items@;
        assert(self.order@[p] == id);
        assert(self.nodes@[id as int].items@ == x);
        assert(self.nodes@[0].height == pre.nodes@[0].height);
        assert(x.take(x.len() as int) =~= x);
        assert(self.start(p) == pre.start(p));
        assert(self.first_item(p) == pre.first_item(p));
        assert(pre.first_item(p) == pre.first_item(c) + pre.cnts()[c]);
        assert(self.start(self.len()) == pre.start(pre.len()) + userlen(x));
        assert forall|l: int| 0 <= l < MAX_HEIGHT implies #[trigger] self.entry_ok(now, l) by {
            assert(pre.entry_ok(cur, l));
            let q = prev_from(hs, c, l);
            lemma_prev_props(hs, c, l);
            if l < hn {
                lemma_prev_unique(hs2, p, l, p);
            } else {
                lemma_prev_unique(hs2, p, l, q);
                assert(self.start(q) == pre.start(q));
            }
        }
    }

    /// A node linked in puts its items into the list at the cursor.
    pub(crate) proof fn lemma_spliced_view(&self, pre: &Self, cur: &Cursor, id: usize)
        requires
            pre.splice_ready(cur, id),
            self.spliced(pre, cur, id),
        ensures
            pre.cursor_index(cur) <= pre@.len(),
            self@ == pre@.take(pre.cursor_index(cur)) + pre.nodes@[id as int].items@ + pre@.skip(
                pre.cursor_index(cur),
            ),
    {
        self.lemma_spliced_seqs(pre, cur, id);
        self.lemma_unfold();
        pre.lemma_unfold();
        let c = cur.pos@;
        crate::model::lemma_flatten_insert(pre.contents(), c + 1, pre.nodes@[id as int].items@);
        assert(pre.first_item(c + 1) == pre.first_item(c) + pre.cnts()[c]);
    }
}

} // verus!

verus! {

impl<Item: ListItem, N: NotifyTarget<Item>> SkipList<Item, N> {
    /// What the loop that links a node in may rely on at level `l`.
    pub(crate) proof fn lemma_splice_bounds(&self, cur: &Cursor, id: usize, l: int)
        requires
            self.splice_ready(cur, id),
            0 <= l < self.head_height(),
        ensures
            cur.entries[l].node < self.nodes@.len(),
            cur.entries[l].node != id,
            l < self.nodes@[cur.entries[l].node as int].nexts@.len(),
            cur.entries[l].skip_usersize <= self.entry(cur.entries[l].node as int, l).skip_usersize,
            self.entry(cur.entries[l].node as int, l).skip_usersize <= self.num_usercount,
    {
        let c = cur.pos@;
        let hs = self.hs();
        assert(self.entry_ok(cur, l));
        self.lemma_owner_skip(c, l);
        let q = prev_from(hs, c, l);
        lemma_prev_props(hs, c, l);
        assert(self.order@.contains(self.order@[q]));
        if q > 0 {
            assert(self.node_shape(q));
        }
        assert(self.link_ok(q, l));
        let j = next_from(hs, q + 1, l);
        lemma_next_props(hs, q + 1, l);
        assert(j > c) by {
            if j <= c {
                assert(hs[j] <= l);
            }
        }
        let items = self.node(c).items@;
        assert(items.take(cur.local_index as int) =~= items);
        assert(self.start(c + 1) == self.start(c) + self.szs()[c]);
        crate::model::lemma_prefix_mono(self.szs(), c + 1, j);
    }

    /// Nodes that the walk behind a new node steps over keep their parents.
    pub(crate) proof fn lemma_adopt_between(&self, p: int, x: int, sh: int, k: int)
        requires
            self.shapes_ok(),
            1 <= p <= x < k < next_from(self.hs(), x + 1, sh),
            0 <= sh,
            x > p ==> self.hs()[x] == sh + 1,
            x == p ==> sh == 0,
            self.parent_ok_without(p, k),
        ensures
            self.parent_ok(k),
    {
        let hs = self.hs();
        lemma_next_props(hs, x + 1, sh);
        assert(self.node_shape(k));
        let h = hs[k];
        crate::model::lemma_prev_unmask(hs, p, k - 1, h);
        lemma_prev_props(hs.update(p, 0), k - 1, h);
        if x > p {
            let a = prev_from(hs.update(p, 0), k - 1, h);
            if a < x {
                assert(hs.update(p, 0)[x] <= h);
            }
        }
    }

    /// Where the walk behind a new node stops, no node has the new node as
    /// its parent any more.
    pub(crate) proof fn lemma_adopt_stop(&self, p: int, x: int, sh: int, k: int)
        requires
            self.shapes_ok(),
            1 <= p <= x,
            0 <= sh,
            next_from(self.hs(), x + 1, sh) <= k < self.len(),
            self.hs()[next_from(self.hs(), x + 1, sh)] >= self.hs()[p],
            self.parent_ok_without(p, k),
        ensures
            self.parent_ok(k),
    {
        let hs = self.hs();
        let y = next_from(hs, x + 1, sh);
        lemma_next_props(hs, x + 1, sh);
        assert(self.node_shape(k));
        let h = hs[k];
        crate::model::lemma_prev_unmask(hs, p, k - 1, h);
        lemma_prev_props(hs.update(p, 0), k - 1, h);
        let a = prev_from(hs.update(p, 0), k - 1, h);
        if k > y && a < p {
            assert(hs.update(p, 0)[y] <= h);
        }
    }

    /// The next node that the walk behind a new node meets has the new node
    /// as the nearest taller one before it, if it is shorter.
    pub(crate) proof fn lemma_adopt_hit(&self, p: int, x: int, sh: int)
        requires
            self.shapes_ok(),
            1 <= p <= x < self.len(),
            0 <= sh,
            next_from(self.hs(), x + 1, sh) < self.len(),
            self.hs()[next_from(self.hs(), x + 1, sh)] < self.hs()[p],
            forall|m: int| p < m <= x ==> self.hs()[m] <= sh + 1,
        ensures
            prev_from(
                self.hs(),
                next_from(self.hs(), x + 1, sh) - 1,
                self.hs()[next_from(self.hs(), x + 1, sh)],
            ) == p,
    {
        let hs = self.hs();
        let y = next_from(hs, x + 1, sh);
        lemma_next_props(hs, x + 1, sh);
        lemma_prev_unique(hs, y - 1, hs[y], p);
    }
}

} // verus!
