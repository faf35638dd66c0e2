//! Insertion: into the node under the cursor where the items fit, and in new
//! nodes behind it where they do not.

use vstd::prelude::*;
use vstd::slice::slice_subrange;
use std::marker::PhantomData;
use crate::item::ListItem;
use crate::item::userlen;
use crate::item::userlen_of_slice;
use crate::item::lemma_userlen_concat;
use crate::item::lemma_userlen_split;
use crate::model::prev_from;
use crate::position::chunks;
use crate::position::spread;
use crate::model::next_from;
use crate::node::SkipEntry;
use crate::node::random_height;
use crate::node::HEAD;
use crate::node::NULL;
use crate::cursor::Cursor;
use crate::node::ItemMarker;
use crate::node::marker_of;
use crate::node::NotifyTarget;
use crate::node::MAX_HEIGHT;
use crate::node::NODE_NUM_ITEMS;
use crate::skiplist::SkipList;

verus! {

impl<Item: ListItem, N: NotifyTarget<Item>> SkipList<Item, N> {
    /// The cursor stands between two items, and is not at the start of a
    /// node that other nodes precede.
    pub(crate) open spec fn cursor_exact(&self, cur: &Cursor) -> bool {
        &&& self.cursor_ok(cur)
        &&& self.residual(cur) == 0
        &&& cur.pos@ == 0 || cur.local_index > 0
    }

    /// Puts `contents` into the cursor's node, at the cursor, and leaves the
    /// cursor behind them.
    #[verifier::rlimit(30)]
    pub(crate) fn insert_in_node(&mut self, cursor: &mut Cursor, contents: Vec<Item>, notify: &mut N)
        requires
            old(self).inv(),
            old(self).cursor_ok(old(cursor)),
            old(self).residual(old(cursor)) == 0,
            old(cursor).pos@ >= 1,
            contents@.len() >= 1,
            old(self).node(old(cursor).pos@).items@.len() + contents@.len() <= NODE_NUM_ITEMS,
            old(self).num_usercount + userlen(contents@) <= usize::MAX,
            old(self).num_items + contents@.len() <= usize::MAX,
        ensures
            final(self).inv(),
            final(self).cursor_exact(final(cursor)),
            final(cursor).pos@ == old(cursor).pos@,
            final(cursor).local_index == old(cursor).local_index + contents@.len(),
            final(self).order@ == old(self).order@,
            final(self).hs() == old(self).hs(),
            final(self).contents() == old(self).contents().update(
                old(cursor).pos@,
                old(self).contents()[old(cursor).pos@].take(old(cursor).local_index as int) + contents@
                    + old(self).contents()[old(cursor).pos@].skip(old(cursor).local_index as int),
            ),
            final(self).cursor_index(final(cursor)) == old(self).cursor_index(old(cursor)) + contents@.len(),
            final(self)@ == old(self)@.take(old(self).cursor_index(old(cursor))) + contents@ + old(self)@.skip(
                old(self).cursor_index(old(cursor)),
            ),
            final(cursor).userpos == old(cursor).userpos + userlen(contents@),
            final(self).wrote(
                old(self),
                old(cursor),
                final(cursor),
                old(notify).told(),
                final(notify).told(),
                seq![(old(cursor).pos@, old(cursor).local_index as int)],
                false,
            ),
    {
        let ghost pre = *self;
        let ghost cur = *cursor;
        let ghost c = cursor.pos@;
        let ghost x = contents@;
        let ghost told0 = notify.told();
        let ghost old_items = self.node(c).items@;
        let e = cursor.here_ptr();
        let idx = cursor.local_index;
        let head_h = self.nodes[0].height;
        proof {
            self.lemma_cursor_lands(cursor);
            assert(self.entry_ok(cursor, 0));
            crate::model::lemma_prev_props(self.hs(), c, 0);
            assert(self.node_shape(c));
            crate::model::lemma_prev_unique(self.hs(), c, 0, c);
            assert(e == self.order@[c]);
        }
        let n = contents.len();
        let size = userlen_of_slice(contents.as_slice());
        let mut contents = contents;
        let mut tail = self.nodes[e].items.split_off(idx);
        self.nodes[e].items.append(&mut contents);
        self.nodes[e].items.append(&mut tail);
        self.num_items = self.num_items + n;
        self.num_usercount = self.num_usercount + size;
        let ghost new_items = old_items.take(idx as int) + x + old_items.skip(idx as int);
        proof {
            assert(self.nodes@[e as int].items@ =~= new_items);
            assert(old_items =~= old_items.take(idx as int) + old_items.skip(idx as int));
            lemma_userlen_concat(old_items.take(idx as int), old_items.skip(idx as int));
            lemma_userlen_concat(old_items.take(idx as int), x);
            lemma_userlen_concat(old_items.take(idx as int) + x, old_items.skip(idx as int));
            assert forall|i: int| 0 <= i < head_h implies {
                let m = (#[trigger] cursor.entries[i]).node;
                &&& m < self.nodes@.len()
                &&& i < self.nodes@[m as int].nexts@.len()
                &&& self.nodes@[m as int].nexts@[i].skip_usersize >= 0
                &&& self.nodes@[m as int].nexts@[i].skip_usersize - 0 + size <= usize::MAX
            } by {
                assert(pre.entry_ok(cursor, i));
                pre.lemma_owner_skip(c, i);
                let q = prev_from(pre.hs(), c, i);
                if q > 0 {
                    assert(pre.node_shape(q));
                }
            }
        }
        cursor.update_offsets(self, head_h, size, 0);
        proof {
            assert(self.same_frame(&pre));
            assert forall|m: int, l: int|
                0 <= m < self.nodes@.len() && 0 <= l < self.nodes@[m].nexts@.len() implies (#[trigger] self.entry(
                m,
                l,
            )).skip_usersize == pre.resized_skip(c, size as int, 0, m, l) by {
                if l < head_h {
                    assert(pre.entry_ok(cursor, l));
                }
            }
            assert(self.resized(&pre, c, size as int, 0));
            self.lemma_resized_inv(&pre, c, size as int, 0);
            assert forall|i: int| 0 <= i < head_h implies (#[trigger] cursor.entries[i]).skip_usersize + size
                <= usize::MAX by {
                assert(pre.entry_ok(cursor, i));
            }
        }
        cursor.skip_forward(head_h, size);
        cursor.local_index = cursor.local_index + n;
        proof {
            assert(new_items.take(idx + n) =~= old_items.take(idx as int) + x);
            self.lemma_resized_cursor(&pre, c, size as int, 0, &cur, cursor, size as int);
            self.lemma_view_replaced(&pre, c, idx as int, 0, x);
            assert(new_items.take(idx as int) =~= old_items.take(idx as int));
            assert(new_items.subrange(idx as int, idx + n) =~= x);
            assert(self.contents().take(c) =~= pre.contents().take(c));
        }
        let slice = slice_subrange(self.nodes[e].items.as_slice(), idx, idx + n);
        notify.notify(slice, ItemMarker { ptr: e, _phantom: PhantomData });
        proof {
            if N::keeps_track() {
                assert(notify.told().take(told0.len() as int) =~= told0);
            }
            self.lemma_unfold();
            pre.lemma_unfold();
            pre.lemma_cursor_lands(&cur);
            let i0 = pre.cursor_index(&cur);
            assert(pre@.take(i0).len() == i0);
            assert(self@.subrange(i0, i0 + n) =~= x);
            self.lemma_wrote_one(&pre, &cur, cursor, told0, notify.told(), c, idx as int);
        }
    }
}

impl<Item: ListItem, N: NotifyTarget<Item>> SkipList<Item, N> {
    /// Draws the height of the next node from the list's generator, which
    /// the list has from then on if it had none before.
    pub(crate) fn draw_height(&mut self) -> (h: u8)
        requires
            old(self).inv(),
        ensures
            final(self).inv(),
            final(self).rng is Some,
            final(self).same_list(old(self)),
            final(self).nodes@ == old(self).nodes@,
            final(self).free@ == old(self).free@,
            final(self)@ == old(self)@,
            1 <= h <= MAX_HEIGHT,
    {
        self.get_rng();
        let ghost mid = *self;
        let h = match &mut self.rng {
            Some(rng) => random_height(rng),
            None => 1,
        };
        proof {
            self.lemma_frame(&mid);
        }
        h
    }

    /// Brings levels of the head into use until `new_height` of them are:
    /// each as if it had been there all along, spanning the whole list, with
    /// the cursor having come down from the head at that level.
    pub(crate) fn raise_head(&mut self, cursor: &mut Cursor, new_height: usize)
        requires
            old(self).inv(),
            old(self).cursor_ok(old(cursor)),
            1 <= new_height <= MAX_HEIGHT,
        ensures
            final(self).inv(),
            final(self).cursor_ok(final(cursor)),
            final(self).head_height() == if old(self).head_height() < new_height {
                new_height as int
            } else {
                old(self).head_height()
            },
            final(self).order@ == old(self).order@,
            final(self).free@ == old(self).free@,
            final(self).rng == old(self).rng,
            final(self).num_items == old(self).num_items,
            final(self).num_usercount == old(self).num_usercount,
            final(self).nodes@.len() == old(self).nodes@.len(),
            forall|n: int| 1 <= n < final(self).nodes@.len() ==> #[trigger] final(self).nodes@[n] == old(self).nodes@[n],
            final(self).hs() == old(self).hs(),
            final(self).contents() == old(self).contents(),
            final(self)@ == old(self)@,
            final(cursor).pos == old(cursor).pos,
            final(cursor).local_index == old(cursor).local_index,
            final(cursor).userpos == old(cursor).userpos,
    {
        let mut head_height = self.nodes[0].height;
        while head_height < new_height
            invariant
                self.inv(),
                self.cursor_ok(cursor),
                head_height == self.head_height(),
                new_height <= MAX_HEIGHT,
                self.head_height() == old(self).head_height() || self.head_height() <= new_height,
                self.head_height() >= old(self).head_height(),
                self.order@ == old(self).order@,
                self.free@ == old(self).free@,
                self.rng == old(self).rng,
                self.num_items == old(self).num_items,
                self.num_usercount == old(self).num_usercount,
                self.nodes@.len() == old(self).nodes@.len(),
                forall|n: int| 1 <= n < self.nodes@.len() ==> #[trigger] self.nodes@[n] == old(self).nodes@[n],
                self.hs() == old(self).hs(),
                self.contents() == old(self).contents(),
                self@ == old(self)@,
                cursor.pos == old(cursor).pos,
                cursor.local_index == old(cursor).local_index,
                cursor.userpos == old(cursor).userpos,
            decreases new_height - head_height,
        {
            let ghost pre = *self;
            let ghost cur = *cursor;
            self.nodes[0].nexts[head_height].skip_usersize = self.num_usercount;
            cursor.entries[head_height].skip_usersize = cursor.userpos;
            head_height = head_height + 1;
            self.nodes[0].height = self.nodes[0].height + 1;
            proof {
                self.lemma_raised(&pre, &cur, cursor);
            }
        }
    }

    /// Links node `id` in behind the cursor at every level it has, and
    /// makes the links that pass over it longer by its size.
    pub(crate) fn splice_links(&mut self, cursor: &Cursor, id: usize, size: usize)
        requires
            old(self).splice_ready(cursor, id),
            size == userlen(old(self).nodes@[id as int].items@),
            old(self).num_usercount + size <= usize::MAX,
        ensures
            final(self).order@ == old(self).order@,
            final(self).free@ == old(self).free@,
            final(self).rng == old(self).rng,
            final(self).num_items == old(self).num_items,
            final(self).num_usercount == old(self).num_usercount,
            final(self).nodes@.len() == old(self).nodes@.len(),
            forall|n: int|
                0 <= n < final(self).nodes@.len() ==> {
                    &&& (#[trigger] final(self).nodes@[n]).height == old(self).nodes@[n].height
                    &&& final(self).nodes@[n].items == old(self).nodes@[n].items
                    &&& final(self).nodes@[n].nexts@.len() == old(self).nodes@[n].nexts@.len()
                    &&& final(self).nodes@[n].parent == old(self).nodes@[n].parent
                },
            forall|n: int, l: int|
                0 <= n < final(self).nodes@.len() && 0 <= l < final(self).nodes@[n].nexts@.len() ==> {
                    &&& (#[trigger] final(self).entry(n, l)).node == old(self).spliced_node(cursor, id, n, l)
                    &&& final(self).entry(n, l).skip_usersize == old(self).spliced_skip(
                        cursor,
                        id,
                        size as int,
                        n,
                        l,
                    )
                },
    {
        let hn = self.nodes[id].height;
        let head_h = self.nodes[0].height;
        let mut i: usize = 0;
        while i < head_h
            invariant
                i <= head_h,
                old(self).splice_ready(cursor, id),
                size == userlen(old(self).nodes@[id as int].items@),
                old(self).num_usercount + size <= usize::MAX,
                hn == old(self).nodes@[id as int].height,
                head_h == old(self).head_height(),
                self.order@ == old(self).order@,
                self.free@ == old(self).free@,
                self.rng == old(self).rng,
                self.num_items == old(self).num_items,
                self.num_usercount == old(self).num_usercount,
                self.nodes@.len() == old(self).nodes@.len(),
                forall|n: int|
                    0 <= n < self.nodes@.len() ==> {
                        &&& (#[trigger] self.nodes@[n]).height == old(self).nodes@[n].height
                        &&& self.nodes@[n].items == old(self).nodes@[n].items
                        &&& self.nodes@[n].nexts@.len() == old(self).nodes@[n].nexts@.len()
                        &&& self.nodes@[n].parent == old(self).nodes@[n].parent
                    },
                forall|n: int, l: int|
                    0 <= n < self.nodes@.len() && 0 <= l < self.nodes@[n].nexts@.len() ==> {
                        &&& (#[trigger] self.entry(n, l)).node == if l < i {
                            old(self).spliced_node(cursor, id, n, l)
                        } else {
                            old(self).entry(n, l).node
                        }
                        &&& self.entry(n, l).skip_usersize == if l < i {
                            old(self).spliced_skip(cursor, id, size as int, n, l)
                        } else {
                            old(self).entry(n, l).skip_usersize as int
                        }
                    },
            decreases head_h - i,
        {
            let ghost before = *self;
            let prev = cursor.entries[i].node;
            proof {
                old(self).lemma_splice_bounds(cursor, id, i as int);
                assert(self.nodes@[prev as int].nexts@.len() == old(self).nodes@[prev as int].nexts@.len());
                assert(self.entry(prev as int, i as int).node == old(self).entry(prev as int, i as int).node);
            }
            let o = self.nodes[prev].nexts[i];
            if i < hn {
                assert(self.nodes@[id as int].nexts@.len() == old(self).nodes@[id as int].nexts@.len());
                self.nodes[id].nexts[i] = SkipEntry {
                    node: o.node,
                    skip_usersize: size + (o.skip_usersize - cursor.entries[i].skip_usersize),
                };
                self.nodes[prev].nexts[i] = SkipEntry { node: id, skip_usersize: cursor.entries[i].skip_usersize };
            } else {
                self.nodes[prev].nexts[i].skip_usersize = o.skip_usersize + size;
            }
            proof {
                assert forall|n: int, l: int|
                    0 <= n < self.nodes@.len() && 0 <= l < self.nodes@[n].nexts@.len() implies {
                    &&& (#[trigger] self.entry(n, l)).node == if l < i + 1 {
                        old(self).spliced_node(cursor, id, n, l)
                    } else {
                        old(self).entry(n, l).node
                    }
                    &&& self.entry(n, l).skip_usersize == if l < i + 1 {
                        old(self).spliced_skip(cursor, id, size as int, n, l)
                    } else {
                        old(self).entry(n, l).skip_usersize as int
                    }
                } by {
                    assert(before.nodes@[n].nexts@.len() == old(self).nodes@[n].nexts@.len());
                    assert(before.entry(n, l).node == if l < i {
                        old(self).spliced_node(cursor, id, n, l)
                    } else {
                        old(self).entry(n, l).node
                    });
                }
                assert forall|n: int| 0 <= n < self.nodes@.len() implies {
                    &&& (#[trigger] self.nodes@[n]).height == old(self).nodes@[n].height
                    &&& self.nodes@[n].items == old(self).nodes@[n].items
                    &&& self.nodes@[n].nexts@.len() == old(self).nodes@[n].nexts@.len()
                    &&& self.nodes@[n].parent == old(self).nodes@[n].parent
                } by {
                    assert(before.nodes@[n].height == old(self).nodes@[n].height);
                }
            }
            i = i + 1;
        }
        proof {
            assert forall|n: int, l: int|
                0 <= n < self.nodes@.len() && 0 <= l < self.nodes@[n].nexts@.len() implies {
                &&& (#[trigger] self.entry(n, l)).node == old(self).spliced_node(cursor, id, n, l)
                &&& self.entry(n, l).skip_usersize == old(self).spliced_skip(cursor, id, size as int, n, l)
            } by {
                assert(self.nodes@[n].nexts@.len() == old(self).nodes@[n].nexts@.len());
            }
        }
    }
}

impl<Item: ListItem, N: NotifyTarget<Item>> SkipList<Item, N> {
    /// Makes node `id`, new at position `p`, the parent of the nodes behind
    /// it that it is the nearest taller node for: walking on from it, each
    /// node met that is at least as tall as all since `id` and shorter than
    /// `id`, up to the first that is not shorter.
    pub(crate) fn adopt_after(&mut self, id: usize, Ghost(p): Ghost<int>)
        requires
            old(self).inv_no_parents(),
            1 <= p < old(self).len(),
            old(self).order@[p] == id,
            forall|k: int| 1 <= k <= p ==> #[trigger] old(self).parent_ok(k),
            forall|k: int| p < k < old(self).len() ==> #[trigger] old(self).parent_ok_without(p, k),
        ensures
            final(self).inv(),
            final(self).same_but_parents(old(self)),
            final(self).rng == old(self).rng,
    {
        let ghost hs = self.hs();
        let ghost len = self.len();
        proof {
            assert(self.node_shape(p));
        }
        let new_height = self.nodes[id].height;
        let mut n = id;
        let mut skip_height: usize = 0;
        let ghost mut x = p;
        let mut done = false;
        while !done
            invariant
                self.inv_no_parents(),
                self.same_but_parents(old(self)),
                self.rng == old(self).rng,
                hs == self.hs(),
                len == self.len(),
                1 <= p <= x < len,
                self.order@[p] == id,
                new_height == hs[p],
                self.order@[x] == n,
                !done ==> skip_height < self.nodes@[n as int].height,
                !done ==> forall|m: int| p < m <= x ==> hs[m] <= skip_height + 1,
                !done && x > p ==> hs[x] == skip_height + 1,
                !done && x == p ==> skip_height == 0,
                forall|k: int| 1 <= k <= x ==> #[trigger] self.parent_ok(k),
                !done ==> forall|k: int| x < k < len ==> #[trigger] self.parent_ok_without(p, k),
                done ==> forall|k: int| 1 <= k < len ==> #[trigger] self.parent_ok(k),
            decreases len - x, (if done { 0int } else { 1int }),
        {
            let ghost y = next_from(hs, x + 1, skip_height as int);
            proof {
                assert(self.node_shape(x));
                assert(self.link_ok(x, skip_height as int));
                crate::model::lemma_next_props(hs, x + 1, skip_height as int);
                assert forall|k: int| x < k < y implies #[trigger] self.parent_ok(k) by {
                    assert(self.parent_ok_without(p, k));
                    self.lemma_adopt_between(p, x, skip_height as int, k);
                }
            }
            let next = self.nodes[n].nexts[skip_height].node;
            let node_count = self.nodes.len();
            if next == NULL {
                done = true;
                proof {
                    if y < len {
                        assert(self.order@[y] < node_count);
                    }
                    assert(y == len);
                }
            } else {
                proof {
                    assert(self.node_shape(y));
                }
                let h = self.nodes[next].height;
                if h >= new_height {
                    done = true;
                    proof {
                        assert forall|k: int| y <= k < len implies #[trigger] self.parent_ok(k) by {
                            assert(self.parent_ok_without(p, k));
                            self.lemma_adopt_stop(p, x, skip_height as int, k);
                        }
                    }
                } else {
                    let ghost before = *self;
                    self.nodes[next].parent = id;
                    proof {
                        assert(self.same_but_parents(&before)) by {
                            assert(before.order@[0] != before.order@[y]);
                        }
                        self.lemma_parents_frame(&before);
                        before.lemma_adopt_hit(p, x, skip_height as int);
                        assert(self.parent_ok(y));
                        assert forall|k: int| 1 <= k < y implies #[trigger] self.parent_ok(k) by {
                            assert(before.parent_ok(k));
                            assert(before.order@[k] != before.order@[y]);
                        }
                        assert forall|k: int| y < k < len implies #[trigger] self.parent_ok_without(p, k) by {
                            assert(before.parent_ok_without(p, k));
                            assert(before.order@[k] != before.order@[y]);
                        }
                        assert(self.same_but_parents(old(self)));
                    }
                    if h - 1 > skip_height {
                        skip_height = h - 1;
                    }
                    n = next;
                    proof {
                        x = y;
                    }
                }
            }
        }
    }
}

impl<Item: ListItem, N: NotifyTarget<Item>> SkipList<Item, N> {
    /// Links node `id`, which is filled and out of the list, in behind the
    /// cursor, which stands at the end of its node. With `move_cursor` the
    /// cursor ends up at the end of the node, else it stays where it is.
    pub(crate) fn link_node(&mut self, cursor: &mut Cursor, id: usize, size: usize, num_items: usize, move_cursor: bool)
        requires
            old(self).splice_ready(old(cursor), id),
            size == userlen(old(self).nodes@[id as int].items@),
            num_items == old(self).nodes@[id as int].items@.len(),
            old(self).num_usercount + size <= usize::MAX,
            old(self).num_items + num_items <= usize::MAX,
        ensures
            final(self).inv(),
            final(self).cursor_ok(final(cursor)),
            final(self).residual(final(cursor)) == 0,
            final(cursor).local_index == final(self).node(final(cursor).pos@).items@.len(),
            final(self).rng == old(self).rng,
            final(self).order@ == old(self).order@.insert(old(cursor).pos@ + 1, id),
            final(self).contents() == old(self).contents().insert(
                old(cursor).pos@ + 1,
                old(self).nodes@[id as int].items@,
            ),
            final(self).nodes@.len() == old(self).nodes@.len(),
            final(self).head_height() == old(self).head_height(),
            final(self).nodes@[id as int].items == old(self).nodes@[id as int].items,
            final(self)@ == old(self)@.take(old(self).cursor_index(old(cursor))) + old(self).nodes@[id as int].items@
                + old(self)@.skip(old(self).cursor_index(old(cursor))),
            final(self).cursor_index(final(cursor)) == old(self).cursor_index(old(cursor)) + (if move_cursor {
                num_items as int
            } else {
                0
            }),
            final(cursor).pos@ == old(cursor).pos@ + (if move_cursor {
                1int
            } else {
                0
            }),
            final(cursor).userpos == old(cursor).userpos + (if move_cursor {
                size as int
            } else {
                0
            }),
            final(self).num_usercount == old(self).num_usercount + size,
            final(self).num_items == old(self).num_items + num_items,
    {
        let head_h = self.nodes[0].height;
        let new_height = self.nodes[id].height;
        let ghost pre = *self;
        let ghost cur = *cursor;
        let ghost c = cursor.pos@;
        let ghost p = c + 1;
        proof {
            pre.lemma_cursor_lands(&cur);
        }
        self.splice_links(cursor, id, size);
        let ghost after_links = *self;
        self.nodes[id].parent = if new_height == MAX_HEIGHT {
            HEAD
        } else {
            cursor.entries[new_height].node
        };
        self.order = Ghost(self.order@.insert(p, id));
        self.num_items = self.num_items + num_items;
        self.num_usercount = self.num_usercount + size;
        let ghost linked = *self;
        proof {
            assert forall|n: int| 0 <= n < self.nodes@.len() implies {
                &&& (#[trigger] self.nodes@[n]).height == pre.nodes@[n].height
                &&& self.nodes@[n].items@ == pre.nodes@[n].items@
                &&& self.nodes@[n].nexts@.len() == pre.nodes@[n].nexts@.len()
                &&& n != id ==> self.nodes@[n].parent == pre.nodes@[n].parent
            } by {
                assert(after_links.nodes@[n].height == pre.nodes@[n].height);
            }
            assert forall|n: int, l: int|
                0 <= n < self.nodes@.len() && 0 <= l < self.nodes@[n].nexts@.len() implies {
                &&& (#[trigger] self.entry(n, l)).node == pre.spliced_node(&cur, id, n, l)
                &&& self.entry(n, l).skip_usersize == pre.spliced_skip(&cur, id, size as int, n, l)
            } by {
                assert(after_links.nodes@[n].height == pre.nodes@[n].height);
                assert(after_links.entry(n, l).node == pre.spliced_node(&cur, id, n, l));
            }
            assert(self.spliced(&pre, &cur, id));
            self.lemma_spliced_inv(&pre, &cur, id);
            self.lemma_spliced_seqs(&pre, &cur, id);
            assert forall|k: int| 1 <= k <= p implies #[trigger] self.parent_ok(k) by {
                self.lemma_spliced_parent(&pre, &cur, id, k);
            }
            assert forall|k: int| p < k < self.len() implies #[trigger] self.parent_ok_without(p, k) by {
                self.lemma_spliced_parent(&pre, &cur, id, k);
            }
            self.lemma_spliced_view(&pre, &cur, id);
        }
        if new_height > 1 {
            self.adopt_after(id, Ghost(p));
            proof {
                self.lemma_parents_frame(&linked);
                assert(self.nodes@[id as int].items == linked.nodes@[id as int].items);
            }
        } else {
            proof {
                assert forall|k: int| p < k < self.len() implies #[trigger] self.parent_ok(k) by {
                    assert(self.parent_ok_without(p, k));
                    assert(self.node_shape(k));
                    crate::model::lemma_prev_unmask(self.hs(), p, k - 1, self.hs()[k]);
                }
            }
        }
        if move_cursor {
            proof {
                assert forall|i: int| 0 <= i < head_h implies (#[trigger] cursor.entries[i]).skip_usersize + size
                    <= usize::MAX by {
                    assert(pre.entry_ok(&cur, i));
                }
            }
            cursor.step_over(id, new_height, head_h, size, num_items);
            proof {
                assert(pre.stepped_over(&cur, cursor, id));
                linked.lemma_spliced_cursor_moves(&pre, &cur, cursor, id);
                if new_height > 1 {
                    self.lemma_parents_frame_cursor(&linked, cursor);
                }
            }
        } else {
            proof {
                linked.lemma_spliced_cursor_stays(&pre, &cur, id);
                assert(linked.node(c).items@ == pre.node(c).items@) by {
                    assert(linked.contents()[c] == pre.contents()[c]);
                }
                if new_height > 1 {
                    self.lemma_parents_frame_cursor(&linked, cursor);
                }
            }
        }
    }

    /// Makes a node of `items` and links it in behind the cursor, which
    /// stands at the end of its node. With `move_cursor` the cursor ends up
    /// at the end of the new node, else it stays where it is.
    #[verifier::rlimit(30)]
    pub(crate) fn insert_node_at(&mut self, cursor: &mut Cursor, items: Vec<Item>, move_cursor: bool, notify: &mut N)
        requires
            old(self).inv(),
            old(self).cursor_ok(old(cursor)),
            old(cursor).local_index == old(self).node(old(cursor).pos@).items@.len(),
            old(self).residual(old(cursor)) == 0,
            1 <= items@.len() <= NODE_NUM_ITEMS,
            old(self).num_usercount + userlen(items@) <= usize::MAX,
            old(self).num_items + items@.len() <= usize::MAX,
        ensures
            final(self).inv(),
            final(self).cursor_ok(final(cursor)),
            final(self).residual(final(cursor)) == 0,
            final(cursor).local_index == final(self).node(final(cursor).pos@).items@.len(),
            final(self)@ == old(self)@.take(old(self).cursor_index(old(cursor))) + items@ + old(self)@.skip(
                old(self).cursor_index(old(cursor)),
            ),
            final(self).cursor_index(final(cursor)) == old(self).cursor_index(old(cursor)) + (if move_cursor {
                items@.len()
            } else {
                0
            }),
            move_cursor ==> final(cursor).pos@ >= 1,
            !move_cursor ==> final(cursor).pos@ == old(cursor).pos@,
            final(cursor).userpos == old(cursor).userpos + (if move_cursor {
                userlen(items@)
            } else {
                0
            }),
            final(self).num_usercount == old(self).num_usercount + userlen(items@),
            final(self).num_items == old(self).num_items + items@.len(),
            final(self).len() == old(self).len() + 1,
            final(self).contents() == old(self).contents().insert(old(cursor).pos@ + 1, items@),
            final(self).order@.remove(old(cursor).pos@ + 1) == old(self).order@,
            move_cursor ==> final(cursor).pos@ == old(cursor).pos@ + 1,
            final(self).wrote(
                old(self),
                old(cursor),
                final(cursor),
                old(notify).told(),
                final(notify).told(),
                if move_cursor {
                    seq![(old(cursor).pos@ + 1, 0int)]
                } else {
                    Seq::<(int, int)>::empty()
                },
                !move_cursor,
            ),
    {
        let ghost first = *self;
        let ghost cur0 = *cursor;
        let ghost x = items@;
        let ghost told0 = notify.told();
        let h = self.draw_height();
        proof {
            self.lemma_frame_cursor(&first, cursor);
        }
        let ghost second = *self;
        let size = userlen_of_slice(items.as_slice());
        let num_items = items.len();
        let id = self.alloc_node(h, items);
        proof {
            self.lemma_frame_cursor(&second, cursor);
        }
        self.raise_head(cursor, h as usize);
        let ghost pre = *self;
        let ghost cur = *cursor;
        let ghost c = cursor.pos@;
        let ghost p = c + 1;
        proof {
            assert(second.nodes@[0] == first.nodes@[0]);
            assert(pre.head_height() >= first.head_height()) by {
                assert(second.order@[0] == 0);
            }
            assert(pre.contents()[c] == first.contents()[c]);
            assert(pre.splice_ready(&cur, id));
            pre.lemma_cursor_lands(&cur);
            first.lemma_cursor_lands(&cur0);
            assert(pre.cursor_index(&cur) == first.cursor_index(&cur0));
        }
        self.link_node(cursor, id, size, num_items, move_cursor);
        proof {
            assert(self.order@.remove(p) =~= first.order@);
            assert(self.contents().take(c) =~= first.contents().take(c));
            assert(self.order@.take(c + 1) =~= first.order@.take(c + 1));
            let its = first.contents()[c];
            assert(its.take(its.len() as int) =~= its);
            assert(self.contents()[c] == its);
            assert(x.subrange(0, x.len() as int) =~= x);
            assert(self.order@[p] == id);
            assert(self.contents()[p] == x);
            assert(self.node_shape(p));
        }
        notify.notify(self.nodes[id].items.as_slice(), ItemMarker { ptr: id, _phantom: PhantomData });
        proof {
            if N::keeps_track() {
                assert(notify.told().take(told0.len() as int) =~= told0);
            }
            self.lemma_unfold();
            first.lemma_unfold();
            first.lemma_cursor_lands(&cur0);
            let i0 = first.cursor_index(&cur0);
            assert(first@.take(i0).len() == i0);
            assert(self@.subrange(i0, i0 + x.len()) =~= x);
            if move_cursor {
                self.lemma_wrote_one(&first, &cur0, cursor, told0, notify.told(), p, 0);
            } else {
                self.lemma_wrote_moved(&first, &cur0, cursor, told0, notify.told());
            }
        }
    }
}

impl<Item: ListItem, N: NotifyTarget<Item>> SkipList<Item, N> {
    /// Takes the items behind the cursor out of the cursor's node and hands
    /// them back, so that the cursor stands at the end of its node.
    pub(crate) fn detach_suffix(&mut self, cursor: &Cursor) -> (end: Vec<Item>)
        requires
            old(self).inv(),
            old(self).cursor_ok(cursor),
            old(self).residual(cursor) == 0,
            cursor.pos@ >= 1,
            1 <= cursor.local_index < old(self).node(cursor.pos@).items@.len(),
        ensures
            final(self).inv(),
            final(self).cursor_ok(cursor),
            final(self).residual(cursor) == 0,
            cursor.local_index == final(self).node(cursor.pos@).items@.len(),
            final(self).cursor_index(cursor) == old(self).cursor_index(cursor),
            1 <= end@.len() <= NODE_NUM_ITEMS,
            old(self).cursor_index(cursor) + end@.len() <= old(self)@.len(),
            end@ == old(self)@.subrange(
                old(self).cursor_index(cursor),
                old(self).cursor_index(cursor) + end@.len(),
            ),
            final(self)@ == old(self)@.take(old(self).cursor_index(cursor)) + old(self)@.skip(
                old(self).cursor_index(cursor) + end@.len(),
            ),
            final(self).num_usercount == old(self).num_usercount - userlen(end@),
            final(self).num_items == old(self).num_items - end@.len(),
            final(self).keeps_behind(old(self), cursor.pos@, cursor.local_index as int),
            final(self).len() == old(self).len(),
            final(self).cnts() == old(self).cnts().update(cursor.pos@, cursor.local_index as nat),
            end@.len() == old(self).cnts()[cursor.pos@] - cursor.local_index,
    {
        let ghost pre = *self;
        let ghost c = cursor.pos@;
        let ghost old_items = self.node(c).items@;
        let e = cursor.here_ptr();
        let idx = cursor.local_index;
        let head_h = self.nodes[0].height;
        proof {
            assert(self.entry_ok(cursor, 0));
            crate::model::lemma_prev_props(self.hs(), c, 0);
            assert(self.node_shape(c));
            crate::model::lemma_prev_unique(self.hs(), c, 0, c);
            assert(self.link_ok(c, 0));
            if c + 1 < self.len() {
                assert(self.node_shape(c + 1));
            }
            crate::model::lemma_next_unique(self.hs(), c + 1, 0, c + 1);
            assert(self.start(c + 1) == self.start(c) + self.szs()[c]);
            lemma_userlen_split(old_items, idx as int);
            self.lemma_owner_skip(c, 0);
            crate::model::lemma_flatten_take_len(self.contents(), self.len());
            crate::model::lemma_flatten_take_len(self.contents(), c + 1);
            crate::model::lemma_prefix_mono(self.cnts(), c + 1, self.len());
            assert(self.first_item(c + 1) == self.first_item(c) + self.cnts()[c]);
        }
        let end_usercount = self.nodes[e].get_userlen() - cursor.entries[0].skip_usersize;
        let end = self.nodes[e].items.split_off(idx);
        self.num_usercount = self.num_usercount - end_usercount;
        self.num_items = self.num_items - end.len();
        proof {
            assert(end@ =~= old_items.skip(idx as int));
            assert(self.nodes@[e as int].items@ =~= old_items.take(idx as int));
            assert forall|i: int| 0 <= i < head_h implies {
                let m = (#[trigger] cursor.entries[i]).node;
                &&& m < self.nodes@.len()
                &&& i < self.nodes@[m as int].nexts@.len()
                &&& self.nodes@[m as int].nexts@[i].skip_usersize >= end_usercount
                &&& self.nodes@[m as int].nexts@[i].skip_usersize - end_usercount + 0 <= usize::MAX
            } by {
                assert(pre.entry_ok(cursor, i));
                pre.lemma_owner_skip(c, i);
                let q = prev_from(pre.hs(), c, i);
                if q > 0 {
                    assert(pre.node_shape(q));
                }
            }
        }
        cursor.update_offsets(self, head_h, 0, end_usercount);
        proof {
            assert forall|m: int, l: int|
                0 <= m < self.nodes@.len() && 0 <= l < self.nodes@[m].nexts@.len() implies (#[trigger] self.entry(
                m,
                l,
            )).skip_usersize == pre.resized_skip(c, 0, end_usercount as int, m, l) by {
                if l < head_h {
                    assert(pre.entry_ok(cursor, l));
                }
            }
            assert(self.resized(&pre, c, 0, end_usercount as int));
            self.lemma_resized_inv(&pre, c, 0, end_usercount as int);
            let new_items = self.node(c).items@;
            assert(new_items.take(idx as int) =~= old_items.take(idx as int));
            self.lemma_resized_cursor(&pre, c, 0, end_usercount as int, cursor, cursor, 0);
            assert(old_items.take(idx as int) + Seq::<Item>::empty() + old_items.skip(old_items.len() as int)
                =~= new_items);
            self.lemma_view_replaced(&pre, c, idx as int, old_items.len() - idx, Seq::<Item>::empty());
            crate::model::lemma_flatten_index(pre.contents(), c, idx as int);
            pre.lemma_unfold();
            let i0 = pre.cursor_index(cursor);
            assert(end@ =~= pre@.subrange(i0, i0 + end@.len())) by {
                assert(pre@.skip(i0) =~= old_items.skip(idx as int) + crate::model::flatten(
                    pre.contents().skip(c + 1),
                ));
            }
            assert(self@ =~= pre@.take(i0) + pre@.skip(i0 + end@.len()));
            assert(self.contents().take(c) =~= pre.contents().take(c));
            assert(self.cnts() =~= pre.cnts().update(c, idx as nat));
        }
        end
    }

    /// Puts `contents` into new nodes behind the cursor, which stands at the
    /// end of its node, and leaves the cursor behind them.
    pub(crate) fn insert_chunks(&mut self, cursor: &mut Cursor, contents: Vec<Item>, notify: &mut N) -> (marks: Ghost<
        Seq<(int, int)>,
    >)
        requires
            old(self).inv(),
            old(self).cursor_ok(old(cursor)),
            old(self).residual(old(cursor)) == 0,
            old(cursor).local_index == old(self).node(old(cursor).pos@).items@.len(),
            old(self).num_usercount + userlen(contents@) <= usize::MAX,
            old(self).num_items + contents@.len() <= usize::MAX,
        ensures
            final(self).inv(),
            final(self).cursor_ok(final(cursor)),
            final(self).residual(final(cursor)) == 0,
            final(cursor).local_index == final(self).node(final(cursor).pos@).items@.len(),
            final(self).cursor_index(final(cursor)) == old(self).cursor_index(old(cursor)) + contents@.len(),
            final(self)@ == old(self)@.take(old(self).cursor_index(old(cursor))) + contents@ + old(self)@.skip(
                old(self).cursor_index(old(cursor)),
            ),
            final(cursor).userpos == old(cursor).userpos + userlen(contents@),
            final(self).num_usercount == old(self).num_usercount + userlen(contents@),
            final(self).num_items == old(self).num_items + contents@.len(),
            final(self).wrote(
                old(self),
                old(cursor),
                final(cursor),
                old(notify).told(),
                final(notify).told(),
                marks@,
                false,
            ),
            old(self).before_next(old(cursor)) ==> final(self).holds_at(
                old(self).next_run(old(cursor)),
                final(cursor).pos@ + 1,
                0,
            ),
            final(self).cnts() == old(self).cnts().take(old(cursor).pos@ + 1) + chunks(contents@.len() as int)
                + old(self).cnts().skip(old(cursor).pos@ + 1),
            final(cursor).pos@ == old(cursor).pos@ + chunks(contents@.len() as int).len(),
    {
        let ghost mid = *self;
        let ghost cur0 = *cursor;
        let ghost i0 = self.cursor_index(cursor);
        let ghost x = contents@;
        let ghost told0 = notify.told();
        let ghost mut marks: Seq<(int, int)> = Seq::empty();
        let ghost mut made: Seq<nat> = Seq::empty();
        let ghost c0 = cursor.pos@;
        proof {
            assert(self.cnts() =~= self.cnts().take(c0 + 1) + made + self.cnts().skip(c0 + 1));
            assert(made + chunks(x.len() as int) =~= chunks(x.len() as int));
        }
        proof {
            self.lemma_cursor_lands(cursor);
            assert(self@ =~= self@.take(i0) + x.take(0) + self@.skip(i0));
            self.lemma_keeps_behind_self(cursor.pos@, cursor.local_index as int);
            self.lemma_wrote_nothing(&mid, &cur0, cursor, told0);
            if mid.before_next(&cur0) {
                let run = mid.contents()[cur0.pos@ + 1];
                assert(run.subrange(0, run.len() as int) =~= run);
            }
        }
        let mut remaining = contents;
        while remaining.len() > 0
            invariant
                self.inv(),
                self.cursor_ok(cursor),
                self.residual(cursor) == 0,
                cursor.local_index == self.node(cursor.pos@).items@.len(),
                remaining@.len() <= x.len(),
                remaining@ == x.skip(x.len() - remaining@.len()),
                self.cursor_index(cursor) == i0 + x.len() - remaining@.len(),
                self@ == mid@.take(i0) + x.take(x.len() - remaining@.len()) + mid@.skip(i0),
                0 <= i0 <= mid@.len(),
                self.num_usercount + userlen(remaining@) == mid.num_usercount + userlen(x),
                self.num_items + remaining@.len() == mid.num_items + x.len(),
                mid.num_usercount + userlen(x) <= usize::MAX,
                mid.num_items + x.len() <= usize::MAX,
                cursor.userpos + userlen(remaining@) == cur0.userpos + userlen(x),
                self.wrote(&mid, &cur0, cursor, told0, notify.told(), marks, false),
                mid.before_next(&cur0) ==> self.holds_at(mid.next_run(&cur0), cursor.pos@ + 1, 0),
                c0 == cur0.pos@,
                cursor.pos@ == c0 + made.len(),
                self.cnts() == mid.cnts().take(c0 + 1) + made + mid.cnts().skip(c0 + 1),
                chunks(x.len() as int) == made + chunks(remaining@.len() as int),
            decreases remaining@.len(),
        {
            let ghost before = *self;
            let ghost cur_before = *cursor;
            let ghost told_before = notify.told();
            let ghost rem0 = remaining@;
            let ghost done = x.len() - rem0.len();
            let here = if remaining.len() < NODE_NUM_ITEMS {
                remaining.len()
            } else {
                NODE_NUM_ITEMS
            };
            let rest = remaining.split_off(here);
            proof {
                lemma_userlen_split(rem0, here as int);
                assert(remaining@ =~= rem0.take(here as int));
                assert(rest@ =~= rem0.skip(here as int));
            }
            self.insert_node_at(cursor, remaining, true, notify);
            proof {
                let chunk = rem0.take(here as int);
                assert(rest@ =~= x.skip(x.len() - rest@.len()));
                assert(x.take(done + here) =~= x.take(done) + chunk);
                let j = i0 + done;
                assert(mid@.take(i0).len() == i0);
                assert(x.take(done).len() == done);
                assert(before@.take(j) =~= mid@.take(i0) + x.take(done));
                assert(before@.skip(j) =~= mid@.skip(i0));
                assert(self@ =~= mid@.take(i0) + x.take(done + here) + mid@.skip(i0));
                self.lemma_wrote_twice(
                    &before,
                    &mid,
                    &cur0,
                    &cur_before,
                    cursor,
                    told0,
                    told_before,
                    notify.told(),
                    marks,
                    seq![(cur_before.pos@ + 1, 0int)],
                    false,
                );
                marks = marks + seq![(cur_before.pos@ + 1, 0int)];
                if mid.before_next(&cur0) {
                    let p = cur_before.pos@ + 1;
                    assert(self.contents()[p + 1] == before.contents()[p]);
                    assert(self.order@.remove(p)[p] == self.order@[p + 1]);
                }
                let p = cur_before.pos@ + 1;
                assert(self.cnts() =~= before.cnts().insert(p, here as nat));
                assert(before.cnts().insert(p, here as nat) =~= mid.cnts().take(c0 + 1) + (made + seq![
                    here as nat,
                ]) + mid.cnts().skip(c0 + 1));
                if rem0.len() > NODE_NUM_ITEMS {
                    crate::position::lemma_chunks_step(rem0.len() as int);
                } else {
                    assert(chunks(0) =~= Seq::<nat>::empty());
                }
                assert(made + chunks(rem0.len() as int) =~= (made + seq![here as nat]) + chunks(
                    rest@.len() as int,
                ));
                made = made + seq![here as nat];
            }
            remaining = rest;
        }
        proof {
            assert(x.take(x.len() as int) =~= x);
            assert(remaining@ =~= Seq::<Item>::empty());
            crate::item::lemma_userlen_empty::<Item>();
            assert(made + chunks(0) =~= made);
        }
        Ghost(marks)
    }

    /// Puts `contents` into new nodes at the cursor: what stands behind the
    /// cursor in its node is taken out first and comes back in a node of
    /// its own behind the new ones.
    #[verifier::rlimit(50)]
    pub(crate) fn insert_spilling(&mut self, cursor: &mut Cursor, contents: Vec<Item>, notify: &mut N) -> (told: (
        Ghost<Seq<(int, int)>>,
        Ghost<bool>,
    ))
        requires
            old(self).inv(),
            old(self).cursor_exact(old(cursor)),
            contents@.len() >= 1,
            old(self).num_usercount + userlen(contents@) <= usize::MAX,
            old(self).num_items + contents@.len() <= usize::MAX,
        ensures
            final(self).inv(),
            final(self).cursor_exact(final(cursor)),
            final(self).cursor_index(final(cursor)) == old(self).cursor_index(old(cursor)) + contents@.len(),
            final(self)@ == old(self)@.take(old(self).cursor_index(old(cursor))) + contents@ + old(self)@.skip(
                old(self).cursor_index(old(cursor)),
            ),
            final(cursor).userpos == old(cursor).userpos + userlen(contents@),
            final(self).wrote(
                old(self),
                old(cursor),
                final(cursor),
                old(notify).told(),
                final(notify).told(),
                told.0@,
                told.1@,
            ),
            final(self).cnts() == old(self).cnts().take(old(cursor).pos@) + seq![old(cursor).local_index as nat]
                + chunks(contents@.len() as int) + (if old(cursor).local_index < old(self).cnts()[old(cursor).pos@] {
                seq![(old(self).cnts()[old(cursor).pos@] - old(cursor).local_index) as nat]
            } else {
                Seq::<nat>::empty()
            }) + old(self).cnts().skip(old(cursor).pos@ + 1),
            told.1@ ==> final(self).before_next(final(cursor)),
            old(self).before_next(old(cursor)) ==> !told.1@ && final(self).holds_at(
                old(self).next_run(old(cursor)),
                final(cursor).pos@ + 1,
                0,
            ),
    {
        let ghost first = *self;
        let ghost cur0 = *cursor;
        let ghost told0 = notify.told();
        let ghost i0 = self.cursor_index(cursor);
        let ghost x = contents@;
        let ghost c = cursor.pos@;
        proof {
            self.lemma_cursor_lands(cursor);
            self.lemma_here(cursor);
        }
        let e = cursor.here_ptr();
        let item_idx = cursor.local_index;
        let e_num_items = self.nodes[e].items.len();
        let end_items: Option<Vec<Item>> = if item_idx < e_num_items {
            Some(self.detach_suffix(cursor))
        } else {
            proof {
                self.lemma_keeps_behind_self(c, item_idx as int);
            }
            None
        };
        let ghost mid = *self;
        let ghost end_seq = if end_items is Some {
            end_items->Some_0@
        } else {
            Seq::<Item>::empty()
        };
        proof {
            if end_items is None {
                assert(mid@ =~= first@.take(i0) + first@.skip(i0));
                crate::item::lemma_userlen_empty::<Item>();
            }
            assert(mid@ =~= first@.take(i0) + first@.skip(i0 + end_seq.len()));
            assert(first@.take(i0).len() == i0);
            assert(mid@.take(i0) =~= first@.take(i0));
            assert(mid@.skip(i0) =~= first@.skip(i0 + end_seq.len()));
            assert(first@.skip(i0) =~= end_seq + first@.skip(i0 + end_seq.len()));
            mid.lemma_wrote_nothing(&first, &cur0, &cur0, told0);
        }
        let marks = self.insert_chunks(cursor, contents, notify);
        let ghost filled = *self;
        let ghost cur_filled = *cursor;
        let ghost told_filled = notify.told();
        let ghost made = chunks(x.len() as int);
        proof {
            assert(mid.cnts() =~= first.cnts().update(c, item_idx as nat));
            assert(mid.cnts().take(c + 1) =~= first.cnts().take(c) + seq![item_idx as nat]);
            assert(mid.cnts().skip(c + 1) =~= first.cnts().skip(c + 1));
        }
        proof {
            assert(self.node_shape(cursor.pos@));
            self.lemma_wrote_twice(
                &mid,
                &first,
                &cur0,
                &cur0,
                cursor,
                told0,
                told0,
                notify.told(),
                Seq::<(int, int)>::empty(),
                marks@,
                false,
            );
            assert(Seq::<(int, int)>::empty() + marks@ =~= marks@);
        }
        match end_items {
            Some(end) => {
                self.insert_node_at(cursor, end, false, notify);
                proof {
                    let j = i0 + x.len();
                    assert((mid@.take(i0) + x).len() == j);
                    assert(filled@.take(j) =~= mid@.take(i0) + x);
                    assert(filled@.skip(j) =~= mid@.skip(i0));
                    assert(self@ =~= first@.take(i0) + x + first@.skip(i0));
                    assert(self.node_shape(cursor.pos@));
                    self.lemma_wrote_twice(
                        &filled,
                        &first,
                        &cur0,
                        &cur_filled,
                        cursor,
                        told0,
                        told_filled,
                        notify.told(),
                        marks@,
                        Seq::<(int, int)>::empty(),
                        true,
                    );
                    assert(marks@ + Seq::<(int, int)>::empty() =~= marks@);
                    let p = cur_filled.pos@ + 1;
                    assert(self.cnts() =~= filled.cnts().insert(p, end_seq.len()));
                    assert(cur_filled.pos@ == c + made.len());
                    assert(filled.cnts().insert(p, end_seq.len()) =~= first.cnts().take(c) + seq![
                        item_idx as nat,
                    ] + made + seq![end_seq.len()] + first.cnts().skip(c + 1));
                }
                (marks, Ghost(true))
            },
            None => {
                proof {
                    assert(self@ =~= first@.take(i0) + x + first@.skip(i0));
                    if first.before_next(&cur0) {
                        assert(mid.contents() == first.contents());
                        assert(mid.order@ == first.order@);
                    }
                    assert(self.cnts() =~= first.cnts().take(c) + seq![item_idx as nat] + made + Seq::<
                        nat,
                    >::empty() + first.cnts().skip(c + 1));
                }
                (marks, Ghost(false))
            },
        }
    }

    /// Puts `contents` into the list at the cursor, and leaves the cursor
    /// behind them.
    ///
    /// Where they fit into the cursor's node they go there; where the cursor
    /// is at the end of its node and they fit into the next, they go there;
    /// else they go into new nodes of their own, and what stood behind the
    /// cursor in its node goes into one more.
    #[verifier::rlimit(20)]
    pub(crate) fn insert_at_iter(&mut self, cursor: &mut Cursor, contents: Vec<Item>, notify: &mut N) -> (told: (
        Ghost<Seq<(int, int)>>,
        Ghost<bool>,
        Ghost<(int, int)>,
    ))
        requires
            old(self).inv(),
            old(self).cursor_exact(old(cursor)),
            old(self).num_usercount + userlen(contents@) <= usize::MAX,
            old(self).num_items + contents@.len() <= usize::MAX,
        ensures
            final(self).inv(),
            final(self).cursor_exact(final(cursor)),
            final(self).cursor_index(final(cursor)) == old(self).cursor_index(old(cursor)) + contents@.len(),
            final(self)@ == old(self)@.take(old(self).cursor_index(old(cursor))) + contents@ + old(self)@.skip(
                old(self).cursor_index(old(cursor)),
            ),
            final(cursor).userpos == old(cursor).userpos + userlen(contents@),
            final(self).wrote(
                old(self),
                old(cursor),
                final(cursor),
                old(notify).told(),
                final(notify).told(),
                told.0@,
                told.1@,
            ),
            told.1@ ==> final(self).before_next(final(cursor)),
            old(self).before_next(old(cursor)) ==> final(self).holds_at(
                old(self).next_run(old(cursor)),
                told.2@.0,
                told.2@.1,
            ),
            final(self).parts() == spread(
                old(self).parts(),
                old(self).cursor_index(old(cursor)),
                contents@.len() as int,
            ),
    {
        let ghost first = *self;
        let ghost cur0 = *cursor;
        let ghost told0 = notify.told();
        let ghost i0 = self.cursor_index(cursor);
        let ghost x = contents@;
        let ghost c = cursor.pos@;
        proof {
            self.lemma_cursor_lands(cursor);
            self.lemma_here(cursor);
        }
        let num_inserted_items = contents.len();
        if num_inserted_items == 0 {
            proof {
                assert(self@ =~= self@.take(i0) + x + self@.skip(i0));
                crate::item::lemma_userlen_empty::<Item>();
                assert(x =~= Seq::<Item>::empty());
                self.lemma_keeps_behind_self(c, cursor.local_index as int);
                self.lemma_wrote_nothing(&first, &cur0, cursor, told0);
                if first.before_next(&cur0) {
                    let run = first.contents()[c + 1];
                    assert(run.subrange(0, run.len() as int) =~= run);
                }
                self.lemma_unfold();
            }
            let ghost none = Seq::<(int, int)>::empty();
            let ghost next = (c + 1, 0int);
            return (Ghost(none), Ghost(false), Ghost(next));
        }
        let e = cursor.here_ptr();
        let mut insert_here = num_inserted_items <= NODE_NUM_ITEMS && e != HEAD && self.nodes[e].items.len()
            <= NODE_NUM_ITEMS - num_inserted_items;
        let mut stepped = false;
        if !insert_here && cursor.local_index == self.nodes[e].items.len() && num_inserted_items
            <= NODE_NUM_ITEMS {
            let next = self.nodes[e].nexts[0].node;
            let node_count = self.nodes.len();
            if next != NULL {
                proof {
                    assert(c + 1 < self.len());
                    assert(self.node_shape(c + 1));
                }
                if self.nodes[next].items.len() + num_inserted_items <= NODE_NUM_ITEMS {
                    cursor.advance_node(self);
                    insert_here = true;
                    stepped = true;
                    proof {
                        assert(self.first_item(c + 1) == self.first_item(c) + self.cnts()[c]);
                        assert(self.start(c + 1) == self.start(c) + self.szs()[c]);
                        let items = self.node(c).items@;
                        assert(items.take(items.len() as int) =~= items);
                    }
                }
            }
        }
        let ghost cur1 = *cursor;
        proof {
            self.lemma_keeps_behind_self(c, cur0.local_index as int);
            self.lemma_wrote_nothing(&first, &cur0, &cur1, told0);
        }
        if insert_here {
            self.insert_in_node(cursor, contents, notify);
            proof {
                self.lemma_wrote_twice(
                    &first,
                    &first,
                    &cur0,
                    &cur1,
                    cursor,
                    told0,
                    told0,
                    notify.told(),
                    Seq::<(int, int)>::empty(),
                    seq![(cur1.pos@, cur1.local_index as int)],
                    false,
                );
                assert(Seq::<(int, int)>::empty() + seq![(cur1.pos@, cur1.local_index as int)] =~= seq![
                    (cur1.pos@, cur1.local_index as int),
                ]);
                if first.before_next(&cur0) {
                    let run = first.contents()[c + 1];
                    if stepped {
                        let now = self.contents()[c + 1];
                        assert(now == run.take(0) + x + run.skip(0));
                        assert(now.subrange(x.len() as int, (x.len() + run.len()) as int) =~= run);
                    } else {
                        assert(run.subrange(0, run.len() as int) =~= run);
                        assert(self.contents()[c + 1] == run);
                    }
                }
            }
            proof {
                let t = cur1.pos@;
                assert(self.cnts() =~= first.cnts().update(t, (first.cnts()[t] + x.len()) as nat));
                first.lemma_spread(&cur0, x.len() as int);
                first.lemma_unfold();
                self.lemma_unfold();
            }
            let ghost one = seq![(cur1.pos@, cur1.local_index as int)];
            let ghost next = if stepped {
                (c + 1, x.len() as int)
            } else {
                (c + 1, 0int)
            };
            (Ghost(one), Ghost(false), Ghost(next))
        } else {
            let sent = self.insert_spilling(cursor, contents, notify);
            proof {
                first.lemma_spread(&cur0, x.len() as int);
                first.lemma_unfold();
                self.lemma_unfold();
                if c + 1 < first.len() {
                    first.lemma_step(c + 1);
                }
            }
            let ghost next = (cursor.pos@ + 1, 0int);
            (sent.0, sent.1, Ghost(next))
        }
    }
}

impl<Item: ListItem, N: NotifyTarget<Item>> SkipList<Item, N> {
    /// Spreading by cursor is spreading by item index in the list.
    pub(crate) proof fn lemma_spread(&self, cur: &Cursor, n: int)
        requires
            self.inv(),
            self.cursor_exact(cur),
            n >= 1,
        ensures
            crate::position::spread_at(self.cnts(), cur.pos@, cur.local_index as int, n).skip(1) == spread(
                self.cnts().skip(1),
                self.cursor_index(cur),
                n,
            ),
    {
        let cnts = self.cnts();
        assert forall|i: int| 1 <= i < cnts.len() implies #[trigger] cnts[i] >= 1 by {
            assert(self.node_shape(i));
        }
        self.lemma_here(cur);
        crate::position::lemma_spread_at(cnts, cur.pos@, cur.local_index as int, n);
    }
}

} // verus!
