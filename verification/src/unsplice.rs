//! How the list's invariant carries over when the node behind the cursor is
//! taken out of the list.

use vstd::prelude::*;
use crate::item::ListItem;
use crate::item::userlen;
use crate::model::prefix_sum;
use crate::model::next_from;
use crate::model::prev_from;
use crate::model::lemma_prefix_remove;
use crate::model::lemma_next_props;
use crate::model::lemma_next_unique;
use crate::model::lemma_prev_props;
use crate::model::lemma_prev_unique;
use crate::cursor::Cursor;
use crate::node::NotifyTarget;
use crate::node::NULL;
use crate::node::MAX_HEIGHT;
use crate::skiplist::SkipList;

verus! {

impl<Item: ListItem, N: NotifyTarget<Item>> SkipList<Item, N> {
    /// The node that entry `l` of node `n` leads to once node `e`, the one
    /// behind the cursor, is out of the list.
    pub(crate) open spec fn unspliced_node(&self, cur: &Cursor, e: usize, n: int, l: int) -> usize {
        let he = self.nodes@[e as int].height as int;
        if l < he && n == cur.entries[l].node {
            self.entry(e as int, l).node
        } else {
            self.entry(n, l).node
        }
    }

    /// The skip size of entry `l` of node `n` once node `e`, the one behind
    /// the cursor, is out of the list.
    pub(crate) open spec fn unspliced_skip(&self, cur: &Cursor, e: usize, n: int, l: int) -> int {
        let he = self.nodes@[e as int].height as int;
        let removed = userlen(self.nodes@[e as int].items@) as int;
        if l < self.head_height() && n == cur.entries[l].node {
            if l < he {
                self.entry(n, l).skip_usersize + self.entry(e as int, l).skip_usersize - removed
            } else {
                self.entry(n, l).skip_usersize - removed
            }
        } else {
            self.entry(n, l).skip_usersize as int
        }
    }

    /// The cursor stands at the end of its node, and node `e` is the next.
    pub(crate) open spec fn unsplice_ready(&self, cur: &Cursor, e: usize) -> bool {
        &&& self.inv()
        &&& self.cursor_ok(cur)
        &&& cur.local_index == self.node(cur.pos@).items@.len()
        &&& self.residual(cur) == 0
        &&& cur.pos@ + 1 < self.len()
        &&& self.order@[cur.pos@ + 1] == e
    }

    /// This list is `pre` with the node behind the cursor taken out; parents
    /// of the nodes behind it are not yet looked after.
    pub(crate) open spec fn unspliced(&self, pre: &Self, cur: &Cursor, e: usize) -> bool {
        &&& self.order@ == pre.order@.remove(cur.pos@ + 1)
        &&& self.free@ == pre.free@
        &&& self.nodes@.len() == pre.nodes@.len()
        &&& forall|n: int|
            0 <= n < self.nodes@.len() ==> {
                &&& (#[trigger] self.nodes@[n]).height == pre.nodes@[n].height
                &&& self.nodes@[n].items@ == pre.nodes@[n].items@
                &&& self.nodes@[n].nexts@.len() == pre.nodes@[n].nexts@.len()
                &&& self.nodes@[n].parent == pre.nodes@[n].parent
            }
        &&& forall|n: int, l: int|
            0 <= n < self.nodes@.len() && 0 <= l < self.nodes@[n].nexts@.len() ==> {
                &&& (#[trigger] self.entry(n, l)).node == pre.unspliced_node(cur, e, n, l)
                &&& self.entry(n, l).skip_usersize == pre.unspliced_skip(cur, e, n, l)
            }
        &&& self.num_items == pre.num_items - pre.nodes@[e as int].items@.len()
        &&& self.num_usercount == pre.num_usercount - userlen(pre.nodes@[e as int].items@)
    }

    /// Heights, items and sizes by position once a node is taken out.
    pub(crate) proof fn lemma_unspliced_seqs(&self, pre: &Self, cur: &Cursor, e: usize)
        requires
            pre.unsplice_ready(cur, e),
            self.unspliced(pre, cur, e),
        ensures
            self.len() == pre.len() - 1,
            self.arena_ok(),
            !self.order@.contains(e),
            !self.free@.contains(e),
            self.hs() == pre.hs().remove(cur.pos@ + 1),
            self.contents() == pre.contents().remove(cur.pos@ + 1),
            cur.userpos == pre.start(cur.pos@ + 1),
            pre.hs()[cur.pos@ + 1] == pre.nodes@[e as int].height,
            pre.szs()[cur.pos@ + 1] == userlen(pre.nodes@[e as int].items@),
            pre.cnts()[cur.pos@ + 1] == pre.nodes@[e as int].items@.len(),
            forall|k: int|
                0 <= k <= self.len() ==> #[trigger] self.start(k) == if k <= cur.pos@ + 1 {
                    pre.start(k) as int
                } else {
                    pre.start(k + 1) - userlen(pre.nodes@[e as int].items@)
                },
            forall|k: int|
                0 <= k <= self.len() ==> #[trigger] self.first_item(k) == if k <= cur.pos@ + 1 {
                    pre.first_item(k) as int
                } else {
                    pre.first_item(k + 1) - pre.nodes@[e as int].items@.len()
                },
    {
        let p = cur.pos@ + 1;
        let ord = pre.order@;
        let ord2 = self.order@;
        assert forall|a: int, b: int| 0 <= a < ord2.len() && 0 <= b < ord2.len() && a != b implies ord2[a]
            != ord2[b] by {
            let a0 = if a < p {
                a
            } else {
                a + 1
            };
            let b0 = if b < p {
                b
            } else {
                b + 1
            };
            assert(ord[a0] != ord[b0]);
        }
        assert forall|k: int| 0 <= k < ord2.len() implies (#[trigger] ord2[k]) < self.nodes@.len() && ord2[k]
            != e by {
            let k0 = if k < p {
                k
            } else {
                k + 1
            };
            assert(ord[k0] < pre.nodes@.len());
            assert(ord[k0] != ord[p]);
        }
        assert(pre.order@.contains(e));
        assert forall|j: int| 0 <= j < self.free@.len() implies (#[trigger] self.free@[j]) < self.nodes@.len()
            && !self.order@.contains(self.free@[j]) && self.free@[j] != e by {
            let f = self.free@[j];
            assert(pre.free@[j] == f);
            if ord2.contains(f) {
                let a = choose|a: int| 0 <= a < ord2.len() && ord2[a] == f;
                let a0 = if a < p {
                    a
                } else {
                    a + 1
                };
                assert(ord.contains(ord[a0]));
            }
        }
        assert forall|k: int| 0 <= k < ord2.len() implies self.hs()[k] == pre.hs().remove(p)[k]
            && self.contents()[k] == pre.contents().remove(p)[k] by {
            let n = ord2[k] as int;
            assert(self.nodes@[n].height == pre.nodes@[n].height);
            assert(self.nodes@[n].items@ == pre.nodes@[n].items@);
            if k < p {
                assert(ord2[k] == ord[k]);
                assert(pre.contents()[k] == pre.nodes@[n].items@);
            } else {
                assert(ord2[k] == ord[k + 1]);
                assert(pre.contents()[k + 1] == pre.nodes@[n].items@);
            }
        }
        assert(self.hs() =~= pre.hs().remove(p));
        assert(self.contents() =~= pre.contents().remove(p));
        assert(self.szs() =~= pre.szs().remove(p));
        assert(self.cnts() =~= pre.cnts().remove(p));
        assert forall|k: int| 0 <= k <= self.len() implies #[trigger] self.start(k) == if k <= p {
            pre.start(k) as int
        } else {
            pre.start(k + 1) - userlen(pre.nodes@[e as int].items@)
        } by {
            lemma_prefix_remove(pre.szs(), p, k);
        }
        assert forall|k: int| 0 <= k <= self.len() implies #[trigger] self.first_item(k) == if k <= p {
            pre.first_item(k) as int
        } else {
            pre.first_item(k + 1) - pre.nodes@[e as int].items@.len()
        } by {
            lemma_prefix_remove(pre.cnts(), p, k);
        }
        let items = pre.node(cur.pos@).items@;
        assert(items.take(cur.local_index as int) =~= items);
        assert(pre.start(p) == pre.start(p - 1) + pre.szs()[p - 1]);
    }

    /// The link at level `i` of the node that the cursor came down from at
    /// that level, where the node taken out has that level.
    pub(crate) proof fn lemma_unspliced_link_low(&self, pre: &Self, cur: &Cursor, e: usize, i: int)
        requires
            pre.unsplice_ready(cur, e),
            self.unspliced(pre, cur, e),
            0 <= i < pre.nodes@[e as int].height,
        ensures
            self.link_ok(prev_from(pre.hs(), cur.pos@, i), i),
    {
        self.lemma_unspliced_seqs(pre, cur, e);
        let c = cur.pos@;
        let p = c + 1;
        let removed = userlen(pre.nodes@[e as int].items@) as int;
        let hs = pre.hs();
        let hs2 = self.hs();
        let k = prev_from(hs, c, i);
        lemma_prev_props(hs, c, i);
        let n = pre.order@[k] as int;
        assert(self.order@[k] == n);
        assert(pre.node_shape(p));
        assert(pre.entry_ok(cur, i));
        pre.lemma_owner_skip(c, i);
        if k > 0 {
            assert(pre.node_shape(k));
        }
        assert(self.nodes@[n].nexts@.len() == pre.nodes@[n].nexts@.len());
        assert(self.entry(n, i).node == pre.unspliced_node(cur, e, n, i));
        assert(self.entry(n, i).skip_usersize == pre.unspliced_skip(cur, e, n, i));
        assert(pre.link_ok(k, i));
        let j = next_from(hs, k + 1, i);
        lemma_next_unique(hs, k + 1, i, p);
        assert(pre.link_ok(p, i));
        let j2 = next_from(hs, p + 1, i);
        lemma_next_props(hs, p + 1, i);
        lemma_next_unique(hs2, k + 1, i, j2 - 1);
        assert(self.start(k) == pre.start(k));
        assert(self.start(p) == pre.start(p));
        if j2 - 1 > p {
            assert(self.start(j2 - 1) == pre.start(j2) - removed);
        } else {
            assert(pre.start(p + 1) == pre.start(p) + pre.szs()[p]);
        }
    }

    /// The link at level `i` of the node that the cursor came down from at
    /// that level, where the link passes over the node taken out.
    pub(crate) proof fn lemma_unspliced_link_high(&self, pre: &Self, cur: &Cursor, e: usize, i: int)
        requires
            pre.unsplice_ready(cur, e),
            self.unspliced(pre, cur, e),
            pre.nodes@[e as int].height <= i < pre.head_height(),
        ensures
            self.link_ok(prev_from(pre.hs(), cur.pos@, i), i),
    {
        self.lemma_unspliced_seqs(pre, cur, e);
        let c = cur.pos@;
        let p = c + 1;
        let removed = userlen(pre.nodes@[e as int].items@) as int;
        let hs = pre.hs();
        let hs2 = self.hs();
        let k = prev_from(hs, c, i);
        lemma_prev_props(hs, c, i);
        let n = pre.order@[k] as int;
        assert(self.order@[k] == n);
        assert(pre.node_shape(p));
        assert(pre.entry_ok(cur, i));
        pre.lemma_owner_skip(c, i);
        if k > 0 {
            assert(pre.node_shape(k));
        }
        assert(self.nodes@[n].nexts@.len() == pre.nodes@[n].nexts@.len());
        assert(self.entry(n, i).node == pre.unspliced_node(cur, e, n, i));
        assert(self.entry(n, i).skip_usersize == pre.unspliced_skip(cur, e, n, i));
        assert(pre.link_ok(k, i));
        let j = next_from(hs, k + 1, i);
        lemma_next_props(hs, k + 1, i);
        assert(j > p) by {
            if j <= p {
                assert(hs[j] <= i);
            }
        }
        lemma_next_unique(hs2, k + 1, i, j - 1);
        assert(self.start(k) == pre.start(k));
        if j - 1 > p {
            assert(self.start(j - 1) == pre.start(j) - removed);
        } else {
            assert(self.start(p) == pre.start(p));
            assert(pre.start(p + 1) == pre.start(p) + pre.szs()[p]);
        }
    }

    /// The link at level `i` of a node up to the cursor's.
    #[verifier::rlimit(20)]
    pub(crate) proof fn lemma_unspliced_link_before(&self, pre: &Self, cur: &Cursor, e: usize, k: int, i: int)
        requires
            pre.unsplice_ready(cur, e),
            self.unspliced(pre, cur, e),
            0 <= k <= cur.pos@,
            0 <= i < pre.node(k).height,
        ensures
            self.link_ok(k, i),
    {
        let c = cur.pos@;
        let p = c + 1;
        let he = pre.nodes@[e as int].height as int;
        let hs = pre.hs();
        if k > 0 {
            assert(pre.node_shape(k));
        }
        let q = prev_from(hs, c, i);
        lemma_prev_props(hs, c, i);
        if k == q {
            if i < he {
                self.lemma_unspliced_link_low(pre, cur, e, i);
            } else {
                self.lemma_unspliced_link_high(pre, cur, e, i);
            }
        } else {
            self.lemma_unspliced_seqs(pre, cur, e);
            let hs2 = self.hs();
            let n = pre.order@[k] as int;
            assert(self.order@[k] == n);
            assert(self.nodes@[n].height == pre.nodes@[n].height);
            assert(self.entry(n, i).node == pre.unspliced_node(cur, e, n, i));
            assert(self.entry(n, i).skip_usersize == pre.unspliced_skip(cur, e, n, i));
            assert(pre.entry_ok(cur, i));
            assert(pre.link_ok(k, i));
            let j = next_from(hs, k + 1, i);
            lemma_next_props(hs, k + 1, i);
            assert(self.start(k) == pre.start(k));
            assert(k < q) by {
                if k > q {
                    assert(hs[k] <= i);
                }
            }
            assert(j <= q) by {
                if j > q {
                    assert(hs[q] <= i);
                }
            }
            lemma_next_unique(hs2, k + 1, i, j);
            assert(pre.order@[q] != pre.order@[k]);
            assert(self.start(j) == pre.start(j));
        }
    }

    /// The link at level `i` of a node behind the one taken out.
    #[verifier::rlimit(20)]
    pub(crate) proof fn lemma_unspliced_link_after(&self, pre: &Self, cur: &Cursor, e: usize, k: int, i: int)
        requires
            pre.unsplice_ready(cur, e),
            self.unspliced(pre, cur, e),
            cur.pos@ + 1 < k < pre.len(),
            0 <= i < pre.node(k).height,
        ensures
            self.link_ok(k - 1, i),
    {
        self.lemma_unspliced_seqs(pre, cur, e);
        let c = cur.pos@;
        let p = c + 1;
        let removed = userlen(pre.nodes@[e as int].items@) as int;
        let hs = pre.hs();
        let hs2 = self.hs();
        let n = pre.order@[k] as int;
        assert(self.order@[k - 1] == n);
        assert(pre.node_shape(k));
        assert(self.nodes@[n].height == pre.nodes@[n].height);
        assert(self.entry(n, i).node == pre.unspliced_node(cur, e, n, i));
        assert(self.entry(n, i).skip_usersize == pre.unspliced_skip(cur, e, n, i));
        let q = prev_from(hs, c, i);
        lemma_prev_props(hs, c, i);
        assert(pre.entry_ok(cur, i));
        assert(pre.link_ok(k, i));
        let j = next_from(hs, k + 1, i);
        lemma_next_props(hs, k + 1, i);
        lemma_next_unique(hs2, k, i, j - 1);
        assert(pre.order@[q] != pre.order@[k]);
        assert(self.start(j - 1) == pre.start(j) - removed);
        if k - 1 > p {
            assert(self.start(k - 1) == pre.start(k) - removed);
        } else {
            assert(self.start(p) == pre.start(p));
            assert(pre.start(p + 1) == pre.start(p) + pre.szs()[p]);
        }
    }

    /// A list with a node taken out is in order, but for the parents of the
    /// nodes that were behind it.
    pub(crate) proof fn lemma_unspliced_inv(&self, pre: &Self, cur: &Cursor, e: usize)
        requires
            pre.unsplice_ready(cur, e),
            self.unspliced(pre, cur, e),
        ensures
            self.inv_no_parents(),
    {
        self.lemma_unspliced_seqs(pre, cur, e);
        let p = cur.pos@ + 1;
        assert(self.head_ok()) by {
            assert(self.nodes@[0].height == pre.nodes@[0].height);
            assert forall|i: int| self.nodes@[0].height <= i < MAX_HEIGHT implies (
            #[trigger] self.nodes@[0].nexts@[i]).node == NULL by {
                assert(self.entry(0, i).node == pre.unspliced_node(cur, e, 0, i));
                assert(pre.nodes@[0].nexts@[i].node == NULL);
                assert(pre.node_shape(p));
            }
        }
        assert forall|k: int| 1 <= k < self.len() implies #[trigger] self.node_shape(k) by {
            let n = self.order@[k] as int;
            assert(self.nodes@[n].height == pre.nodes@[n].height);
            assert(self.nodes@[0].height == pre.nodes@[0].height);
            if k < p {
                assert(pre.node_shape(k));
            } else {
                assert(pre.node_shape(k + 1));
            }
        }
        assert forall|k: int, i: int|
            0 <= k < self.len() && 0 <= i < self.node(k).height implies #[trigger] self.link_ok(k, i) by {
            let n = self.order@[k] as int;
            assert(self.nodes@[n].height == pre.nodes@[n].height);
            if k < p {
                self.lemma_unspliced_link_before(pre, cur, e, k, i);
            } else {
                self.lemma_unspliced_link_after(pre, cur, e, k + 1, i);
            }
        }
        assert(pre.start(pre.len()) == self.start(self.len()) + userlen(pre.nodes@[e as int].items@)) by {
            if self.len() == p {
                assert(pre.start(p + 1) == pre.start(p) + pre.szs()[p]);
            }
        }
        assert(pre.first_item(pre.len()) == self.first_item(self.len()) + pre.nodes@[e as int].items@.len()) by {
            if self.len() == p {
                assert(pre.first_item(p + 1) == pre.first_item(p) + pre.cnts()[p]);
            }
        }
    }
}

} // verus!

verus! {

impl<Item: ListItem, N: NotifyTarget<Item>> SkipList<Item, N> {
    /// What the loop that takes a node out may rely on at level `l`.
    pub(crate) proof fn lemma_unsplice_bounds(&self, cur: &Cursor, e: usize, l: int)
        requires
            self.unsplice_ready(cur, e),
            0 <= l < self.head_height(),
        ensures
            e < self.nodes@.len(),
            1 <= self.nodes@[e as int].height <= self.head_height(),
            self.nodes@[e as int].nexts@.len() == self.nodes@[e as int].height,
            cur.entries[l].node < self.nodes@.len(),
            cur.entries[l].node != e,
            l < self.nodes@[cur.entries[l].node as int].nexts@.len(),
            self.entry(cur.entries[l].node as int, l).skip_usersize <= self.num_usercount,
            l < self.nodes@[e as int].height ==> userlen(self.nodes@[e as int].items@) <= self.entry(
                e as int,
                l,
            ).skip_usersize && self.entry(cur.entries[l].node as int, l).skip_usersize + self.entry(
                e as int,
                l,
            ).skip_usersize <= self.num_usercount,
            l >= self.nodes@[e as int].height ==> userlen(self.nodes@[e as int].items@) <= self.entry(
                cur.entries[l].node as int,
                l,
            ).skip_usersize,
    {
        let c = cur.pos@;
        let p = c + 1;
        let hs = self.hs();
        let he = self.nodes@[e as int].height as int;
        assert(self.node_shape(p));
        assert(self.entry_ok(cur, l));
        self.lemma_owner_skip(c, l);
        let q = prev_from(hs, c, l);
        lemma_prev_props(hs, c, l);
        assert(self.order@[q] != self.order@[p]);
        if q > 0 {
            assert(self.node_shape(q));
        }
        assert(self.link_ok(q, l));
        let j = next_from(hs, q + 1, l);
        lemma_next_props(hs, q + 1, l);
        assert(j > c) by {
            if j <= c {
                assert(hs[j] <= l);
            }
        }
        if l < he {
            assert(j == p);
            assert(self.link_ok(p, l));
            self.lemma_owner_skip(p, l);
            lemma_prev_unique(hs, p, l, p);
        } else {
            lemma_prev_unique(hs, p, l, q);
            self.lemma_owner_skip(p, l);
        }
    }

    /// After the links are changed, the nodes up to the cursor's have their
    /// parents, and the node taken out still leads to the one that was
    /// behind it.
    pub(crate) proof fn lemma_unspliced_parent_before(&self, pre: &Self, cur: &Cursor, e: usize, k: int)
        requires
            pre.unsplice_ready(cur, e),
            self.unspliced(pre, cur, e),
            1 <= k <= cur.pos@,
        ensures
            self.parent_ok(k),
    {
        self.lemma_unspliced_seqs(pre, cur, e);
        let hs = pre.hs();
        let hs2 = self.hs();
        let n = self.order@[k] as int;
        assert(self.nodes@[n].height == pre.nodes@[n].height);
        let h = self.nodes@[n].height as int;
        assert(pre.parent_ok(k));
        let qq = prev_from(hs, k - 1, h);
        lemma_prev_props(hs, k - 1, h);
        lemma_prev_unique(hs2, k - 1, h, qq);
    }

    /// The node taken out still leads to the node that was behind it.
    pub(crate) proof fn lemma_unspliced_first(&self, pre: &Self, cur: &Cursor, e: usize)
        requires
            pre.unsplice_ready(cur, e),
            self.unspliced(pre, cur, e),
        ensures
            self.entry(e as int, 0).node == if cur.pos@ + 1 < self.len() {
                self.order@[cur.pos@ + 1]
            } else {
                NULL
            },
    {
        self.lemma_unspliced_seqs(pre, cur, e);
        let p = cur.pos@ + 1;
        let hs = pre.hs();
        assert(pre.node_shape(p));
        assert(pre.link_ok(p, 0));
        if p + 1 < pre.len() {
            assert(pre.node_shape(p + 1));
        }
        lemma_next_unique(hs, p + 1, 0, p + 1);
        assert(self.entry(e as int, 0).node == pre.unspliced_node(cur, e, e as int, 0));
        assert(pre.entry_ok(cur, 0));
        lemma_prev_props(hs, cur.pos@, 0);
        assert(pre.order@[prev_from(hs, cur.pos@, 0)] != pre.order@[p]);
    }

    /// Nodes that the walk behind a node taken out steps over keep their
    /// parents.
    pub(crate) proof fn lemma_disown_between(&self, pre: &Self, cur: &Cursor, e: usize, x: int, sh: int, k: int)
        requires
            pre.unsplice_ready(cur, e),
            self.unspliced(pre, cur, e),
            self.shapes_ok(),
            cur.pos@ + 1 <= x < k < next_from(self.hs(), x + 1, sh),
            0 <= sh,
            self.hs()[x] == sh + 1,
        ensures
            pre.node(k + 1).parent == self.order@[prev_from(self.hs(), k - 1, self.hs()[k])],
    {
        self.lemma_unspliced_seqs(pre, cur, e);
        let hs = pre.hs();
        let hs2 = self.hs();
        lemma_next_props(hs2, x + 1, sh);
        assert(self.node_shape(k));
        let h = hs2[k];
        assert(pre.parent_ok(k + 1));
        let q_old = prev_from(hs, k, h);
        lemma_prev_props(hs, k, h);
        assert(q_old >= x + 1) by {
            if q_old < x + 1 {
                assert(hs[x + 1] <= h);
            }
        }
        lemma_prev_unique(hs2, k - 1, h, q_old - 1);
    }

    /// From the first node behind the one taken out that is not shorter
    /// than it, every node has the parent it had.
    pub(crate) proof fn lemma_disown_stop(&self, pre: &Self, cur: &Cursor, e: usize, y: int, k: int)
        requires
            pre.unsplice_ready(cur, e),
            self.unspliced(pre, cur, e),
            self.shapes_ok(),
            cur.pos@ + 1 <= y <= k < self.len(),
            self.hs()[y] >= pre.nodes@[e as int].height,
        ensures
            pre.node(k + 1).parent == self.order@[prev_from(self.hs(), k - 1, self.hs()[k])],
    {
        self.lemma_unspliced_seqs(pre, cur, e);
        let p = cur.pos@ + 1;
        let hs = pre.hs();
        let hs2 = self.hs();
        assert(self.node_shape(k));
        let h = hs2[k];
        assert(pre.parent_ok(k + 1));
        let q_old = prev_from(hs, k, h);
        lemma_prev_props(hs, k, h);
        if q_old <= p {
            if k > y {
                assert(hs[y + 1] <= h);
            }
            assert(q_old != p);
            lemma_prev_unique(hs2, k - 1, h, q_old);
        } else {
            lemma_prev_unique(hs2, k - 1, h, q_old - 1);
        }
    }

    /// The next node that the walk behind a node taken out meets has, if it
    /// is shorter than that node, the cursor's node of its own height as the
    /// nearest taller one before it.
    pub(crate) proof fn lemma_disown_hit(&self, pre: &Self, cur: &Cursor, e: usize, x: int, sh: int)
        requires
            pre.unsplice_ready(cur, e),
            self.unspliced(pre, cur, e),
            self.shapes_ok(),
            cur.pos@ <= x < self.len(),
            0 <= sh,
            next_from(self.hs(), x + 1, sh) < self.len(),
            self.hs()[next_from(self.hs(), x + 1, sh)] < pre.nodes@[e as int].height,
            forall|m: int| cur.pos@ < m <= x ==> self.hs()[m] <= sh + 1,
        ensures
            self.hs()[next_from(self.hs(), x + 1, sh)] < MAX_HEIGHT,
            self.order@[prev_from(
                self.hs(),
                next_from(self.hs(), x + 1, sh) - 1,
                self.hs()[next_from(self.hs(), x + 1, sh)],
            )] == cur.entries[self.hs()[next_from(self.hs(), x + 1, sh)]].node,
    {
        self.lemma_unspliced_seqs(pre, cur, e);
        let c = cur.pos@;
        let p = c + 1;
        let hs = pre.hs();
        let hs2 = self.hs();
        let y = next_from(hs2, x + 1, sh);
        lemma_next_props(hs2, x + 1, sh);
        let hy = hs2[y];
        assert(pre.node_shape(p));
        assert(self.node_shape(y));
        assert(pre.entry_ok(cur, hy));
        let q = prev_from(hs, c, hy);
        lemma_prev_props(hs, c, hy);
        lemma_prev_unique(hs2, y - 1, hy, q);
    }

    /// The cursor is still a cursor of the list with the node taken out.
    pub(crate) proof fn lemma_unspliced_cursor(&self, pre: &Self, cur: &Cursor, e: usize)
        requires
            pre.unsplice_ready(cur, e),
            self.unspliced(pre, cur, e),
        ensures
            self.cursor_ok(cur),
            self.residual(cur) == 0,
            self.cursor_index(cur) == pre.cursor_index(cur),
            cur.local_index == self.node(cur.pos@).items@.len(),
    {
        self.lemma_unspliced_seqs(pre, cur, e);
        self.lemma_unspliced_inv(pre, cur, e);
        let c = cur.pos@;
        let hs = pre.hs();
        let hs2 = self.hs();
        assert(self.order@[c] == pre.order@[c]);
        assert(self.nodes@[pre.order@[c] as int].items@ == pre.nodes@[pre.order@[c] as int].items@);
        assert(self.nodes@[0].height == pre.nodes@[0].height);
        assert(self.start(c) == pre.start(c));
        assert(self.first_item(c) == pre.first_item(c));
        assert(self.start(c + 1) == self.start(c) + self.szs()[c]);
        crate::model::lemma_prefix_mono(self.szs(), c + 1, self.len());
        let items = self.node(c).items@;
        assert(items.take(cur.local_index as int) =~= items);
        assert forall|l: int| 0 <= l < MAX_HEIGHT implies #[trigger] self.entry_ok(cur, l) by {
            assert(pre.entry_ok(cur, l));
            let q = prev_from(hs, c, l);
            lemma_prev_props(hs, c, l);
            lemma_prev_unique(hs2, c, l, q);
            assert(self.start(q) == pre.start(q));
        }
    }

    /// A node taken out takes its items out of the list at the cursor.
    pub(crate) proof fn lemma_unspliced_view(&self, pre: &Self, cur: &Cursor, e: usize)
        requires
            pre.unsplice_ready(cur, e),
            self.unspliced(pre, cur, e),
        ensures
            pre.cursor_index(cur) + pre.nodes@[e as int].items@.len() <= pre@.len(),
            self@ == pre@.take(pre.cursor_index(cur)) + pre@.skip(
                pre.cursor_index(cur) + pre.nodes@[e as int].items@.len(),
            ),
            pre.nodes@[e as int].items@ == pre@.subrange(
                pre.cursor_index(cur),
                pre.cursor_index(cur) + pre.nodes@[e as int].items@.len(),
            ),
    {
        self.lemma_unspliced_seqs(pre, cur, e);
        self.lemma_unfold();
        pre.lemma_unfold();
        let c = cur.pos@;
        crate::model::lemma_flatten_remove(pre.contents(), c + 1);
        assert(pre.first_item(c + 1) == pre.first_item(c) + pre.cnts()[c]);
        crate::model::lemma_flatten_index(pre.contents(), c + 1, 0);
        crate::model::lemma_flatten_index(pre.contents(), c + 1, pre.contents()[c + 1].len() as int);
        let i0 = pre.cursor_index(cur);
        let items = pre.nodes@[e as int].items@;
        assert(pre@.take(i0 + items.len()) =~= pre@.take(i0) + items) by {
            assert(items.take(0) =~= Seq::<Item>::empty());
            assert(items.take(items.len() as int) =~= items);
        }
        assert(items =~= pre@.subrange(i0, i0 + items.len()));
    }
}

} // verus!
