//! Deletion: out of the middle of a node, and of whole nodes.

use vstd::prelude::*;
use crate::item::ListItem;
use crate::item::userlen;
use crate::item::lemma_userlen_split;
use crate::item::lemma_userlen_concat;
use crate::model::prev_from;
use crate::model::next_from;
use crate::cursor::Cursor;
use crate::item::userlen_of_slice;
use vstd::slice::slice_subrange;
use crate::node::SkipEntry;
use crate::node::NotifyTarget;
use crate::node::HEAD;
use crate::node::NULL;
use crate::node::MAX_HEIGHT;
use crate::node::NODE_NUM_ITEMS;
use crate::skiplist::SkipList;

verus! {

impl<Item: ListItem, N: NotifyTarget<Item>> SkipList<Item, N> {
    /// Leads the links that end at node `e`, the one behind the cursor, on to
    /// where `e` leads, and makes the links that pass over it shorter by its
    /// size.
    pub(crate) fn unsplice_links(&mut self, cursor: &Cursor, e: usize)
        requires
            old(self).unsplice_ready(cursor, e),
        ensures
            final(self).order@ == old(self).order@,
            final(self).free@ == old(self).free@,
            final(self).rng == old(self).rng,
            final(self).num_items == old(self).num_items,
            final(self).num_usercount == old(self).num_usercount,
            final(self).nodes@.len() == old(self).nodes@.len(),
            forall|n: int|
                0 <= n < final(self).nodes@.len() ==> {
                    &&& (#[trigger] final(self).nodes@[n]).height == old(self).nodes@[n].height
                    &&& final(self).nodes@[n].items == old(self).nodes@[n].items
                    &&& final(self).nodes@[n].nexts@.len() == old(self).nodes@[n].nexts@.len()
                    &&& final(self).nodes@[n].parent == old(self).nodes@[n].parent
                },
            forall|n: int, l: int|
                0 <= n < final(self).nodes@.len() && 0 <= l < final(self).nodes@[n].nexts@.len() ==> {
                    &&& (#[trigger] final(self).entry(n, l)).node == old(self).unspliced_node(cursor, e, n, l)
                    &&& final(self).entry(n, l).skip_usersize == old(self).unspliced_skip(cursor, e, n, l)
                },
    {
        proof {
            old(self).lemma_unsplice_bounds(cursor, e, 0);
            old(self).lemma_owner_skip(cursor.pos@ + 1, 0);
            crate::model::lemma_flatten_userlen(old(self).contents());
            assert(old(self).node_shape(cursor.pos@ + 1));
            assert(old(self).link_ok(cursor.pos@ + 1, 0));
            if cursor.pos@ + 2 < old(self).len() {
                assert(old(self).node_shape(cursor.pos@ + 2));
            }
            crate::model::lemma_next_unique(old(self).hs(), cursor.pos@ + 2, 0, cursor.pos@ + 2);
            assert(old(self).start(cursor.pos@ + 2) == old(self).start(cursor.pos@ + 1) + old(self).szs()[cursor.pos@
                + 1]);
        }
        let he = self.nodes[e].height;
        let head_h = self.nodes[0].height;
        let removed = self.nodes[e].get_userlen();
        let mut i: usize = 0;
        while i < head_h
            invariant
                i <= head_h,
                old(self).unsplice_ready(cursor, e),
                removed == userlen(old(self).nodes@[e as int].items@),
                he == old(self).nodes@[e as int].height,
                head_h == old(self).head_height(),
                e < self.nodes@.len(),
                self.order@ == old(self).order@,
                self.free@ == old(self).free@,
                self.rng == old(self).rng,
                self.num_items == old(self).num_items,
                self.num_usercount == old(self).num_usercount,
                self.nodes@.len() == old(self).nodes@.len(),
                forall|n: int|
                    0 <= n < self.nodes@.len() ==> {
                        &&& (#[trigger] self.nodes@[n]).height == old(self).nodes@[n].height
                        &&& self.nodes@[n].items == old(self).nodes@[n].items
                        &&& self.nodes@[n].nexts@.len() == old(self).nodes@[n].nexts@.len()
                        &&& self.nodes@[n].parent == old(self).nodes@[n].parent
                    },
                forall|n: int, l: int|
                    0 <= n < self.nodes@.len() && 0 <= l < self.nodes@[n].nexts@.len() ==> {
                        &&& (#[trigger] self.entry(n, l)).node == if l < i {
                            old(self).unspliced_node(cursor, e, n, l)
                        } else {
                            old(self).entry(n, l).node
                        }
                        &&& self.entry(n, l).skip_usersize == if l < i {
                            old(self).unspliced_skip(cursor, e, n, l)
                        } else {
                            old(self).entry(n, l).skip_usersize as int
                        }
                    },
            decreases head_h - i,
        {
            let ghost before = *self;
            let prev = cursor.entries[i].node;
            proof {
                old(self).lemma_unsplice_bounds(cursor, e, i as int);
                assert(self.nodes@[prev as int].nexts@.len() == old(self).nodes@[prev as int].nexts@.len());
                assert(self.nodes@[e as int].nexts@.len() == old(self).nodes@[e as int].nexts@.len());
                assert(self.entry(prev as int, i as int).node == old(self).entry(prev as int, i as int).node);
                if i < he {
                    assert(self.entry(e as int, i as int).node == old(self).entry(e as int, i as int).node);
                }
            }
            let o = self.nodes[prev].nexts[i];
            if i < he {
                let t = self.nodes[e].nexts[i];
                self.nodes[prev].nexts[i] = SkipEntry {
                    node: t.node,
                    skip_usersize: o.skip_usersize + (t.skip_usersize - removed),
                };
            } else {
                self.nodes[prev].nexts[i].skip_usersize = o.skip_usersize - removed;
            }
            proof {
                assert forall|n: int, l: int|
                    0 <= n < self.nodes@.len() && 0 <= l < self.nodes@[n].nexts@.len() implies {
                    &&& (#[trigger] self.entry(n, l)).node == if l < i + 1 {
                        old(self).unspliced_node(cursor, e, n, l)
                    } else {
                        old(self).entry(n, l).node
                    }
                    &&& self.entry(n, l).skip_usersize == if l < i + 1 {
                        old(self).unspliced_skip(cursor, e, n, l)
                    } else {
                        old(self).entry(n, l).skip_usersize as int
                    }
                } by {
                    assert(before.nodes@[n].nexts@.len() == old(self).nodes@[n].nexts@.len());
                    assert(before.entry(n, l).node == if l < i {
                        old(self).unspliced_node(cursor, e, n, l)
                    } else {
                        old(self).entry(n, l).node
                    });
                }
                assert forall|n: int| 0 <= n < self.nodes@.len() implies {
                    &&& (#[trigger] self.nodes@[n]).height == old(self).nodes@[n].height
                    &&& self.nodes@[n].items == old(self).nodes@[n].items
                    &&& self.nodes@[n].nexts@.len() == old(self).nodes@[n].nexts@.len()
                    &&& self.nodes@[n].parent == old(self).nodes@[n].parent
                } by {
                    assert(before.nodes@[n].height == old(self).nodes@[n].height);
                }
            }
            i = i + 1;
        }
        proof {
            assert forall|n: int, l: int|
                0 <= n < self.nodes@.len() && 0 <= l < self.nodes@[n].nexts@.len() implies {
                &&& (#[trigger] self.entry(n, l)).node == old(self).unspliced_node(cursor, e, n, l)
                &&& self.entry(n, l).skip_usersize == old(self).unspliced_skip(cursor, e, n, l)
            } by {
                assert(self.nodes@[n].nexts@.len() == old(self).nodes@[n].nexts@.len());
                old(self).lemma_unsplice_bounds(cursor, e, 0);
            }
        }
    }

    /// Puts a node that is out of the list up for use again, and drops its
    /// items.
    pub(crate) fn free_node(&mut self, e: usize)
        requires
            old(self).inv(),
            e < old(self).nodes@.len(),
            !old(self).order@.contains(e),
            !old(self).free@.contains(e),
        ensures
            final(self).inv(),
            final(self).same_list(old(self)),
            final(self).rng == old(self).rng,
            final(self)@ == old(self)@,
            final(self).free@ == old(self).free@.push(e),
            final(self).nodes@.len() == old(self).nodes@.len(),
            forall|n: int|
                0 <= n < old(self).nodes@.len() && n != e ==> #[trigger] final(self).nodes@[n] == old(self).nodes@[n],
            final(self).nodes@[e as int].items@ == Seq::<Item>::empty(),
            final(self).nodes@[e as int].height == old(self).nodes@[e as int].height,
            final(self).nodes@[e as int].parent == old(self).nodes@[e as int].parent,
            final(self).nodes@[e as int].nexts == old(self).nodes@[e as int].nexts,
    {
        self.nodes[e].items = Vec::new();
        self.free.push(e);
        proof {
            assert forall|k: int| 0 <= k < old(self).order@.len() implies self.nodes@[(
            #[trigger] old(self).order@[k]) as int] == old(self).node(k) by {
                assert(old(self).order@.contains(old(self).order@[k]));
            }
            assert forall|a: int, b: int|
                0 <= a < self.free@.len() && 0 <= b < self.free@.len() && a != b implies self.free@[a]
                != self.free@[b] by {
                if a < old(self).free@.len() {
                    assert(old(self).free@.contains(old(self).free@[a]));
                }
                if b < old(self).free@.len() {
                    assert(old(self).free@.contains(old(self).free@[b]));
                }
            }
            self.lemma_frame(old(self));
        }
    }
}

impl<Item: ListItem, N: NotifyTarget<Item>> SkipList<Item, N> {
    /// Gives the nodes that had node `e` as their parent, now that it is out
    /// of the list, the parent that is next in line: walking on from `e`,
    /// each node met that is at least as tall as all since `e` and shorter
    /// than `e` gets the node that the cursor came down from at its height.
    pub(crate) fn disown_after(&mut self, cursor: &Cursor, e: usize, Ghost(pre): Ghost<Self>)
        requires
            pre.unsplice_ready(cursor, e),
            old(self).unspliced(&pre, cursor, e),
            old(self).inv_no_parents(),
            pre.nodes@[e as int].height > 1,
        ensures
            final(self).inv(),
            final(self).same_but_parents(old(self)),
            final(self).rng == old(self).rng,
    {
        let ghost linked = *self;
        let ghost hs = self.hs();
        let ghost len = self.len();
        let ghost c = cursor.pos@;
        let ghost p = c + 1;
        proof {
            linked.lemma_unspliced_seqs(&pre, cursor, e);
            assert(pre.node_shape(p));
            assert forall|k: int| 1 <= k <= c implies #[trigger] self.parent_ok(k) by {
                linked.lemma_unspliced_parent_before(&pre, cursor, e, k);
            }
            assert forall|k: int| c < k < len implies #[trigger] self.node(k).parent == pre.node(k + 1).parent by {
                assert(self.order@[k] == pre.order@[k + 1]);
                assert(self.nodes@[self.order@[k] as int].parent == pre.nodes@[self.order@[k] as int].parent);
            }
            assert(self.nodes@[e as int].height == pre.nodes@[e as int].height);
            assert(self.nodes@[e as int].nexts@.len() == pre.nodes@[e as int].nexts@.len());
        }
        let height = self.nodes[e].height;
        let mut n = e;
        let mut parent_height: usize = 1;
        let ghost mut x = c;
        let mut done = false;
        while !done
            invariant
                pre.unsplice_ready(cursor, e),
                linked.unspliced(&pre, cursor, e),
                linked.inv_no_parents(),
                self.inv_no_parents(),
                self.same_but_parents(&linked),
                self.rng == linked.rng,
                hs == self.hs(),
                hs == linked.hs(),
                len == self.len(),
                c == cursor.pos@,
                p == c + 1,
                height == pre.nodes@[e as int].height,
                height <= MAX_HEIGHT,
                e < self.nodes@.len(),
                self.nodes@[e as int].nexts@.len() == height,
                c <= x < len || (x == c && c == len - 1),
                x == c ==> n == e && parent_height == 1,
                x > c ==> self.order@[x] == n && hs[x] == parent_height,
                1 <= parent_height < height,
                !done ==> forall|m: int| c < m <= x ==> hs[m] <= parent_height,
                forall|k: int| 1 <= k <= x && k < len ==> #[trigger] self.parent_ok(k),
                !done ==> forall|k: int|
                    x < k < len ==> #[trigger] self.node(k).parent == pre.node(k + 1).parent,
                done ==> forall|k: int| 1 <= k < len ==> #[trigger] self.parent_ok(k),
            decreases len - x, (if done { 0int } else { 1int }),
        {
            let ghost sh = parent_height - 1;
            let ghost y = next_from(hs, x + 1, sh);
            proof {
                crate::model::lemma_next_props(hs, x + 1, sh);
                if x == c {
                    linked.lemma_unspliced_first(&pre, cursor, e);
                    assert(self.nodes@[e as int].nexts == linked.nodes@[e as int].nexts);
                    if p < len {
                        assert(self.node_shape(p));
                    }
                    crate::model::lemma_next_unique(hs, c + 1, 0, p);
                } else {
                    assert(self.node_shape(x));
                    assert(self.link_ok(x, sh));
                    assert forall|k: int| x < k < y implies #[trigger] self.parent_ok(k) by {
                        linked.lemma_disown_between(&pre, cursor, e, x, sh, k);
                        assert(self.node(k).parent == pre.node(k + 1).parent);
                        assert(self.node_shape(k));
                    }
                }
            }
            let next = self.nodes[n].nexts[parent_height - 1].node;
            let node_count = self.nodes.len();
            if next == NULL {
                done = true;
                proof {
                    if y < len {
                        assert(self.order@[y] < node_count);
                    }
                    assert(y == len);
                }
            } else {
                proof {
                    assert(self.node_shape(y));
                }
                let h = self.nodes[next].height;
                if h >= height {
                    done = true;
                    proof {
                        assert forall|k: int| y <= k < len implies #[trigger] self.parent_ok(k) by {
                            linked.lemma_disown_stop(&pre, cursor, e, y, k);
                            assert(self.node(k).parent == pre.node(k + 1).parent);
                            assert(self.node_shape(k));
                        }
                    }
                } else {
                    let ghost before = *self;
                    proof {
                        linked.lemma_disown_hit(&pre, cursor, e, x, sh);
                    }
                    let new_parent = cursor.entries[h].node;
                    self.nodes[next].parent = new_parent;
                    proof {
                        assert(self.same_but_parents(&before)) by {
                            assert(before.order@[0] != before.order@[y]);
                        }
                        self.lemma_parents_frame(&before);
                        assert(self.parent_ok(y));
                        assert forall|k: int| 1 <= k < y implies #[trigger] self.parent_ok(k) by {
                            assert(before.parent_ok(k));
                            assert(before.order@[k] != before.order@[y]);
                        }
                        assert forall|k: int| y < k < len implies #[trigger] self.node(k).parent == pre.node(
                            k + 1,
                        ).parent by {
                            assert(before.node(k).parent == pre.node(k + 1).parent);
                            assert(before.order@[k] != before.order@[y]);
                        }
                        assert(self.same_but_parents(&linked));
                    }
                    if h > parent_height {
                        parent_height = h;
                    }
                    n = next;
                    proof {
                        x = y;
                    }
                }
            }
        }
    }

    /// Takes node `e`, the one behind the cursor, out of the list with all
    /// its items, and frees it.
    #[verifier::rlimit(20)]
    pub(crate) fn remove_node(&mut self, cursor: &Cursor, e: usize)
        requires
            old(self).unsplice_ready(cursor, e),
        ensures
            final(self).inv(),
            final(self).cursor_ok(cursor),
            final(self).residual(cursor) == 0,
            cursor.local_index == final(self).node(cursor.pos@).items@.len(),
            final(self).cursor_index(cursor) == old(self).cursor_index(cursor),
            final(self).len() == old(self).len() - 1,
            final(self).order@ == old(self).order@.remove(cursor.pos@ + 1),
            final(self).cnts() == old(self).cnts().remove(cursor.pos@ + 1),
            final(self).keeps_behind(old(self), cursor.pos@, cursor.local_index as int),
            final(self).head_height() == old(self).head_height(),
            old(self).cursor_index(cursor) + old(self).node(cursor.pos@ + 1).items@.len() <= old(self)@.len(),
            final(self)@ == old(self)@.take(old(self).cursor_index(cursor)) + old(self)@.skip(
                old(self).cursor_index(cursor) + old(self).node(cursor.pos@ + 1).items@.len(),
            ),
            final(self).rng == old(self).rng,
    {
        let ghost pre = *self;
        let ghost p = cursor.pos@ + 1;
        proof {
            pre.lemma_unsplice_bounds(cursor, e, 0);
            assert(pre.node_shape(p));
            pre.lemma_owner_skip(p, 0);
            crate::model::lemma_flatten_take_len(pre.contents(), pre.len());
            assert(pre.contents().take(pre.len()) =~= pre.contents());
            pre.lemma_unfold();
            crate::model::lemma_prefix_mono(pre.cnts(), p + 1, pre.len());
            crate::model::lemma_prefix_mono(pre.cnts(), 0, p);
            assert(pre.first_item(p + 1) == pre.first_item(p) + pre.cnts()[p]);
            assert(pre.link_ok(p, 0));
            if p + 1 < pre.len() {
                assert(pre.node_shape(p + 1));
            }
            crate::model::lemma_next_unique(pre.hs(), p + 1, 0, p + 1);
            assert(pre.start(p + 1) == pre.start(p) + pre.szs()[p]);
        }
        let height = self.nodes[e].height;
        let removed = self.nodes[e].get_userlen();
        let count = self.nodes[e].items.len();
        self.unsplice_links(cursor, e);
        let ghost after_links = *self;
        self.order = Ghost(self.order@.remove(p));
        self.num_items = self.num_items - count;
        self.num_usercount = self.num_usercount - removed;
        let ghost linked = *self;
        proof {
            assert(removed == userlen(pre.nodes@[e as int].items@));
            assert(count == pre.nodes@[e as int].items@.len());
            assert forall|n: int| 0 <= n < self.nodes@.len() implies {
                &&& (#[trigger] self.nodes@[n]).height == pre.nodes@[n].height
                &&& self.nodes@[n].items@ == pre.nodes@[n].items@
                &&& self.nodes@[n].nexts@.len() == pre.nodes@[n].nexts@.len()
                &&& self.nodes@[n].parent == pre.nodes@[n].parent
            } by {
                assert(after_links.nodes@[n].height == pre.nodes@[n].height);
            }
            assert forall|n: int, l: int|
                0 <= n < self.nodes@.len() && 0 <= l < self.nodes@[n].nexts@.len() implies {
                &&& (#[trigger] self.entry(n, l)).node == pre.unspliced_node(cursor, e, n, l)
                &&& self.entry(n, l).skip_usersize == pre.unspliced_skip(cursor, e, n, l)
            } by {
                assert(after_links.entry(n, l).node == pre.unspliced_node(cursor, e, n, l));
            }
            assert(self.unspliced(&pre, cursor, e));
            self.lemma_unspliced_inv(&pre, cursor, e);
            self.lemma_unspliced_seqs(&pre, cursor, e);
            self.lemma_unspliced_view(&pre, cursor, e);
            self.lemma_unspliced_cursor(&pre, cursor, e);
        }
        if height > 1 {
            self.disown_after(cursor, e, Ghost(pre));
            proof {
                self.lemma_parents_frame(&linked);
                self.lemma_parents_frame_cursor(&linked, cursor);
            }
        } else {
            proof {
                assert forall|k: int| 1 <= k < self.len() implies #[trigger] self.parent_ok(k) by {
                    if k < p {
                        self.lemma_unspliced_parent_before(&pre, cursor, e, k);
                    } else {
                        assert(self.node_shape(k));
                        self.lemma_disown_stop(&pre, cursor, e, k, k);
                        assert(self.order@[k] == pre.order@[k + 1]);
                        assert(self.nodes@[self.order@[k] as int].parent == pre.nodes@[self.order@[k] as int].parent);
                    }
                }
            }
        }
        let ghost unlinked = *self;
        self.free_node(e);
        proof {
            self.lemma_frame_cursor(&unlinked, cursor);
            self.lemma_frame(&unlinked);
            assert(linked.cnts() =~= pre.cnts().remove(p));
            assert(self.contents().take(p - 1) =~= pre.contents().take(p - 1));
            assert(self.order@.take(p) =~= pre.order@.take(p));
            assert(self.contents()[p - 1] == pre.contents()[p - 1]);
        }
    }
}

impl<Item: ListItem, N: NotifyTarget<Item>> SkipList<Item, N> {
    /// Takes `removed_here` items out of node `e` from offset `item_idx`,
    /// and leaves at least one item in the node. The node is the cursor's, or
    /// the one behind the cursor where the cursor is at the end of its node.
    #[verifier::rlimit(20)]
    pub(crate) fn trim_node(
        &mut self,
        cursor: &Cursor,
        e: usize,
        Ghost(t): Ghost<int>,
        item_idx: usize,
        removed_here: usize,
    )
        requires
            old(self).inv(),
            old(self).cursor_ok(cursor),
            old(self).residual(cursor) == 0,
            1 <= t < old(self).len(),
            old(self).order@[t] == e,
            t == cursor.pos@ || t == cursor.pos@ + 1,
            t == cursor.pos@ ==> item_idx == cursor.local_index,
            t == cursor.pos@ + 1 ==> item_idx == 0 && cursor.local_index == old(self).node(cursor.pos@).items@.len(),
            1 <= removed_here,
            item_idx + removed_here <= old(self).node(t).items@.len(),
            removed_here < old(self).node(t).items@.len(),
        ensures
            final(self).inv(),
            final(self).cursor_ok(cursor),
            final(self).residual(cursor) == 0,
            final(self).order@ == old(self).order@,
            final(self).rng == old(self).rng,
            final(self).cursor_index(cursor) == old(self).cursor_index(cursor),
            final(self).node(t).items@ == old(self).node(t).items@.take(item_idx as int) + old(self).node(
                t,
            ).items@.skip(item_idx + removed_here),
            final(self).cnts() == old(self).cnts().update(
                t,
                (old(self).node(t).items@.len() - removed_here) as nat,
            ),
            t == cursor.pos@ + 1 ==> cursor.local_index == final(self).node(cursor.pos@).items@.len(),
            final(self).keeps_behind(old(self), cursor.pos@, cursor.local_index as int),
            final(self).head_height() == old(self).head_height(),
            old(self).cursor_index(cursor) + removed_here <= old(self)@.len(),
            final(self)@ == old(self)@.take(old(self).cursor_index(cursor)) + old(self)@.skip(
                old(self).cursor_index(cursor) + removed_here,
            ),
    {
        let ghost pre = *self;
        let ghost c = cursor.pos@;
        let ghost hs = self.hs();
        let ghost old_items = self.node(t).items@;
        let ghost gone = old_items.subrange(item_idx as int, item_idx + removed_here);
        let head_h = self.nodes[0].height;
        proof {
            assert(self.node_shape(t));
            self.lemma_owner_skip(t, 0);
            crate::item::lemma_userlen_subrange(old_items, item_idx as int, item_idx + removed_here);
            lemma_userlen_split(old_items, item_idx + removed_here);
            assert(self.first_item(c + 1) == self.first_item(c) + self.cnts()[c]);
            assert(self.first_item(t + 1) == self.first_item(t) + self.cnts()[t]);
            crate::model::lemma_prefix_mono(self.cnts(), t + 1, self.len());
        }
        let height = self.nodes[e].height;
        let removed_userlen = userlen_of_slice(
            slice_subrange(self.nodes[e].items.as_slice(), item_idx, item_idx + removed_here),
        );
        let mut tail = self.nodes[e].items.split_off(item_idx + removed_here);
        self.nodes[e].items.truncate(item_idx);
        self.nodes[e].items.append(&mut tail);
        self.num_items = self.num_items - removed_here;
        self.num_usercount = self.num_usercount - removed_userlen;
        let ghost new_items = old_items.take(item_idx as int) + old_items.skip(item_idx + removed_here);
        let mut owners = *cursor;
        let mut i: usize = 0;
        while i < height
            invariant
                i <= height <= MAX_HEIGHT,
                owners.userpos == cursor.userpos,
                owners.local_index == cursor.local_index,
                owners.pos == cursor.pos,
                forall|l: int|
                    0 <= l < MAX_HEIGHT ==> #[trigger] owners.entries[l] == if l < i {
                        SkipEntry { node: e, skip_usersize: cursor.entries[l].skip_usersize }
                    } else {
                        cursor.entries[l]
                    },
            decreases height - i,
        {
            owners.entries[i].node = e;
            i = i + 1;
        }
        proof {
            assert(self.nodes@[e as int].items@ =~= new_items);
            lemma_userlen_concat(old_items.take(item_idx as int), old_items.skip(item_idx + removed_here));
            assert forall|l: int| 0 <= l < head_h implies {
                let m = (#[trigger] owners.entries[l]).node;
                &&& m == pre.order@[prev_from(hs, t, l)]
                &&& m < self.nodes@.len()
                &&& l < self.nodes@[m as int].nexts@.len()
                &&& self.nodes@[m as int].nexts@[l].skip_usersize >= removed_userlen
                &&& self.nodes@[m as int].nexts@[l].skip_usersize - removed_userlen + 0 <= usize::MAX
            } by {
                pre.lemma_owner_skip(t, l);
                let q = prev_from(hs, t, l);
                if q > 0 {
                    assert(pre.node_shape(q));
                }
                if l >= height {
                    assert(pre.entry_ok(cursor, l));
                    if t == c {
                    } else {
                        assert(q == prev_from(hs, c, l));
                    }
                }
            }
        }
        owners.update_offsets(self, head_h, 0, removed_userlen);
        proof {
            assert forall|m: int, l: int|
                0 <= m < self.nodes@.len() && 0 <= l < self.nodes@[m].nexts@.len() implies (#[trigger] self.entry(
                m,
                l,
            )).skip_usersize == pre.resized_skip(t, 0, removed_userlen as int, m, l) by {
                if l < head_h {
                    assert(owners.entries[l].node == pre.order@[prev_from(hs, t, l)]);
                }
            }
            assert(self.resized(&pre, t, 0, removed_userlen as int));
            self.lemma_resized_inv(&pre, t, 0, removed_userlen as int);
            if t == c {
                assert(new_items.take(item_idx as int) =~= old_items.take(item_idx as int));
            } else {
                assert(self.contents()[c] == pre.contents()[c]);
            }
            crate::model::lemma_prefix_mono(self.szs(), c + 1, self.len());
            assert(self.start(c + 1) == self.start(c) + self.szs()[c]);
            crate::item::lemma_userlen_take_le(self.node(c).items@, cursor.local_index as int);
            assert(self.start(c) == pre.start(c));
            self.lemma_resized_cursor(&pre, t, 0, removed_userlen as int, cursor, cursor, 0);
            self.lemma_view_replaced(&pre, t, item_idx as int, removed_here as int, Seq::<Item>::empty());
            assert(self@ =~= pre@.take(pre.cursor_index(cursor)) + pre@.skip(
                pre.cursor_index(cursor) + removed_here,
            ));
            assert(self.cnts() =~= pre.cnts().update(t, (old_items.len() - removed_here) as nat));
            assert(self.contents().take(c) =~= pre.contents().take(c));
            if t == c {
                assert(self.contents()[c].take(item_idx as int) =~= pre.contents()[c].take(item_idx as int));
            }
        }
    }
}

impl<Item: ListItem, N: NotifyTarget<Item>> SkipList<Item, N> {
    /// Where a deletion is at: node `e`, at position `t` of the list, is the
    /// cursor's, with `item_idx` the cursor's index in it, or it is the next
    /// one, with `item_idx` 0 and the cursor at the end of its node.
    pub(crate) open spec fn del_at(&self, cursor: &Cursor, e: usize, t: int, item_idx: usize) -> bool {
        let c = cursor.pos@;
        &&& t == c || t == c + 1
        &&& t < self.len()
        &&& self.order@[t] == e
        &&& t == c ==> item_idx == cursor.local_index
        &&& t == c + 1 ==> item_idx == 0 && cursor.local_index == self.node(c).items@.len()
    }

    /// Deletes what there is to delete in one node: up to `remaining` items
    /// from the place that the deletion is at. Hands back the place that the
    /// deletion is at then, and how many items have gone.
    #[verifier::rlimit(30)]
    pub(crate) fn del_step(
        &mut self,
        cursor: &Cursor,
        e: usize,
        Ghost(t): Ghost<int>,
        item_idx: usize,
        remaining: usize,
    ) -> (r: (usize, usize, usize, Ghost<int>))
        requires
            old(self).inv(),
            old(self).cursor_exact(cursor),
            old(self).del_at(cursor, e, t, item_idx),
            remaining > 0,
            old(self).cursor_index(cursor) + remaining <= old(self)@.len(),
        ensures
            final(self).inv(),
            final(self).cursor_exact(cursor),
            final(self).cursor_index(cursor) == old(self).cursor_index(cursor),
            final(self).rng == old(self).rng,
            1 <= r.2 <= remaining,
            final(self)@ == old(self)@.take(old(self).cursor_index(cursor)) + old(self)@.skip(
                old(self).cursor_index(cursor) + r.2,
            ),
            crate::position::trimmed(old(self).parts(), old(self).cursor_index(cursor), remaining as int)
                == crate::position::trimmed(
                final(self).parts(),
                old(self).cursor_index(cursor),
                remaining - r.2,
            ),
            remaining - r.2 > 0 ==> final(self).del_at(cursor, r.0, r.3@, r.1),
            final(self).keeps_behind(old(self), cursor.pos@, cursor.local_index as int),
            final(self).head_height() == old(self).head_height(),
    {
        let ghost before = *self;
        let ghost i0 = self.cursor_index(cursor);
        let ghost c = cursor.pos@;
        let mut e = e;
        let mut item_idx = item_idx;
        let ghost mut t = t;
        proof {
            self.lemma_unfold();
            crate::model::lemma_flatten_len(self.contents());
            assert(self.first_item(c + 1) == self.first_item(c) + self.cnts()[c]);
            crate::model::lemma_prefix_mono(self.cnts(), c + 1, self.len());
            if t > 0 {
                assert(self.node_shape(t));
            }
            self.lemma_here(cursor);
        }
        if item_idx == self.nodes[e].items.len() {
            proof {
                assert(t == c);
                assert(c + 1 < self.len());
            }
            e = self.nodes[e].nexts[0].node;
            item_idx = 0;
            proof {
                t = c + 1;
            }
        }
        proof {
            assert(self.order@[t] != self.order@[0]);
            assert(self.node_shape(t));
            assert(self.first_item(t + 1) == self.first_item(t) + self.cnts()[t]);
            self.lemma_parts(t);
            self.lemma_step(t);
        }
        let e_num_items = self.nodes[e].items.len();
        let removed_here = if remaining < e_num_items - item_idx {
            remaining
        } else {
            e_num_items - item_idx
        };
        if removed_here < e_num_items || e == HEAD {
            self.trim_node(cursor, e, Ghost(t), item_idx, removed_here);
            proof {
                if c > 0 {
                    assert(self.node_shape(c));
                }
                self.lemma_unfold();
                assert(self.parts() =~= before.parts().update(
                    t - 1,
                    (before.parts()[t - 1] - removed_here) as nat,
                ));
                crate::position::lemma_trimmed_step_trim(
                    before.parts(),
                    t - 1,
                    i0,
                    remaining as int,
                    removed_here as int,
                );
            }
        } else {
            let next = self.nodes[e].nexts[0].node;
            self.remove_node(cursor, e);
            e = next;
            proof {
                self.lemma_unfold();
                assert(self.parts() =~= before.parts().remove(t - 1));
                crate::position::lemma_trimmed_step_drop(before.parts(), t - 1, i0, remaining as int);
            }
        }
        proof {
            if remaining - removed_here > 0 {
                crate::model::lemma_flatten_len(self.contents());
                assert(self.first_item(c + 1) == self.first_item(c) + self.cnts()[c]);
                if t == c + 1 {
                    if t >= self.len() {
                        assert(false);
                    }
                }
            }
        }
        (e, item_idx, removed_here, Ghost(t))
    }

    /// Deletes `num_deleted_items` items from the cursor on. The cursor
    /// stays where it is.
    ///
    /// Items go out of the middle of a node where some of the node stays,
    /// and a node goes as a whole where none of it does.
    pub(crate) fn del_at_iter(&mut self, cursor: &Cursor, num_deleted_items: usize)
        requires
            old(self).inv(),
            old(self).cursor_exact(cursor),
            old(self).cursor_index(cursor) + num_deleted_items <= old(self)@.len(),
        ensures
            final(self).inv(),
            final(self).cursor_exact(cursor),
            final(self).cursor_index(cursor) == old(self).cursor_index(cursor),
            final(self)@ == old(self)@.take(old(self).cursor_index(cursor)) + old(self)@.skip(
                old(self).cursor_index(cursor) + num_deleted_items,
            ),
            final(self).parts() == crate::position::trimmed(
                old(self).parts(),
                old(self).cursor_index(cursor),
                num_deleted_items as int,
            ),
            final(self).rng == old(self).rng,
            final(self).keeps_behind(old(self), cursor.pos@, cursor.local_index as int),
            final(self).head_height() == old(self).head_height(),
    {
        let ghost first = *self;
        let ghost i0 = self.cursor_index(cursor);
        proof {
            self.lemma_cursor_lands(cursor);
            self.lemma_here(cursor);
            assert(self@ =~= self@.take(i0) + self@.skip(i0));
            self.lemma_keeps_behind_self(cursor.pos@, cursor.local_index as int);
        }
        if num_deleted_items == 0 {
            return ;
        }
        let mut item_idx = cursor.local_index;
        let mut e = cursor.here_ptr();
        let mut remaining = num_deleted_items;
        let ghost mut t = cursor.pos@;
        while remaining > 0
            invariant
                self.inv(),
                self.cursor_exact(cursor),
                self.rng == first.rng,
                self.cursor_index(cursor) == i0,
                remaining <= num_deleted_items,
                remaining > 0 ==> self.del_at(cursor, e, t, item_idx),
                0 <= i0,
                i0 + num_deleted_items <= first@.len(),
                self@ == first@.take(i0) + first@.skip(i0 + num_deleted_items - remaining),
                i0 + remaining <= self@.len(),
                crate::position::trimmed(first.parts(), i0, num_deleted_items as int) == crate::position::trimmed(
                    self.parts(),
                    i0,
                    remaining as int,
                ),
                self.keeps_behind(&first, cursor.pos@, cursor.local_index as int),
                self.head_height() == first.head_height(),
            decreases remaining,
        {
            let ghost before = *self;
            let ghost done = num_deleted_items - remaining;
            let step = self.del_step(cursor, e, Ghost(t), item_idx, remaining);
            e = step.0;
            item_idx = step.1;
            let removed_here = step.2;
            proof {
                t = step.3@;
                assert(first@.take(i0).len() == i0);
                assert(before@.take(i0) =~= first@.take(i0));
                assert(before@.skip(i0 + removed_here) =~= first@.skip(i0 + done + removed_here));
                assert(self@ =~= first@.take(i0) + first@.skip(i0 + done + removed_here));
                self.lemma_keeps_behind_twice(
                    &before,
                    &first,
                    cursor.pos@,
                    cursor.local_index as int,
                    cursor.pos@,
                    cursor.local_index as int,
                );
            }
            remaining = remaining - removed_here;
        }
    }
}

} // verus!
