//! Changing an item where it stands.

use vstd::prelude::*;
use vstd::slice::slice_subrange;
use std::marker::PhantomData;
use crate::item::ListItem;
use crate::item::userlen;
use crate::model::prev_from;
use crate::cursor::Cursor;
use crate::node::ItemMarker;
use crate::node::marker_of;
use crate::node::NotifyTarget;
use crate::skiplist::SkipList;

verus! {

impl<Item: ListItem, N: NotifyTarget<Item>> SkipList<Item, N> {
    /// This list is `pre` but for the item before the cursor.
    pub(crate) open spec fn prev_changed(&self, pre: &Self, cur: &Cursor) -> bool {
        let e = cur.entries[0].node as int;
        let idx = cur.local_index - 1;
        &&& self.order@ == pre.order@
        &&& self.free@ == pre.free@
        &&& self.rng == pre.rng
        &&& self.num_items == pre.num_items
        &&& self.num_usercount == pre.num_usercount
        &&& self.nodes@.len() == pre.nodes@.len()
        &&& forall|n: int| 0 <= n < self.nodes@.len() && n != e ==> #[trigger] self.nodes@[n] == pre.nodes@[n]
        &&& self.nodes@[e].height == pre.nodes@[e].height
        &&& self.nodes@[e].parent == pre.nodes@[e].parent
        &&& self.nodes@[e].nexts == pre.nodes@[e].nexts
        &&& self.nodes@[e].items@ == pre.nodes@[e].items@.update(idx, self.nodes@[e].items@[idx])
    }

    /// The item before the cursor as a note.
    pub(crate) open spec fn prev_note(&self, cur: &Cursor) -> (Seq<Item>, ItemMarker<Item>) {
        (
            seq![self.node(cur.pos@).items@[cur.local_index - 1]],
            marker_of(self.order@[cur.pos@]),
        )
    }

    /// Brings sizes and totals up to date after the item before the cursor
    /// has been changed, moves the cursor by as much as the item has grown
    /// or shrunk, and tells the sink.
    pub(crate) fn finish_modify(&mut self, cursor: &mut Cursor, old_usersize: usize, Ghost(pre): Ghost<Self>, notify: &mut N)
        requires
            pre.inv(),
            pre.cursor_ok(old(cursor)),
            old(cursor).local_index > 0,
            old(self).prev_changed(&pre, old(cursor)),
            old_usersize == pre.node(old(cursor).pos@).items@[old(cursor).local_index - 1].usersize(),
            pre.num_usercount - old_usersize + old(self).node(old(cursor).pos@).items@[old(cursor).local_index
                - 1].usersize() <= usize::MAX,
            old(cursor).userpos - old_usersize + old(self).node(old(cursor).pos@).items@[old(cursor).local_index
                - 1].usersize() <= usize::MAX,
        ensures
            final(self).inv(),
            final(self).cursor_ok(final(cursor)),
            final(self).residual(final(cursor)) == pre.residual(old(cursor)),
            final(self).cursor_index(final(cursor)) == pre.cursor_index(old(cursor)),
            final(cursor).pos == old(cursor).pos,
            final(cursor).local_index == old(cursor).local_index,
            final(self)@ == pre@.update(
                pre.cursor_index(old(cursor)) - 1,
                old(self).node(old(cursor).pos@).items@[old(cursor).local_index - 1],
            ),
            final(self).node(final(cursor).pos@).items@.len() == pre.node(old(cursor).pos@).items@.len(),
            final(self).len() == pre.len(),
            final(self).cnts() == pre.cnts(),
            final(self).head_height() == pre.head_height(),
            N::keeps_track() ==> final(notify).told() == old(notify).told().push(
                final(self).prev_note(final(cursor)),
            ) && final(self).holds_at(
                final(self).prev_note(final(cursor)),
                final(cursor).pos@,
                final(cursor).local_index - 1,
            ),
    {
        let ghost cur = *cursor;
        let ghost c = cursor.pos@;
        let ghost mid = *self;
        let ghost old_items = pre.node(c).items@;
        let ghost idx = cursor.local_index - 1;
        proof {
            pre.lemma_here(cursor);
            pre.lemma_cursor_lands(cursor);
            assert(pre.node_shape(c)) by {
                if c == 0 {
                    assert(pre.nodes@[0].items@.len() == 0);
                }
            }
            pre.lemma_owner_skip(c, 0);
            crate::item::lemma_userlen_take_le(old_items, cursor.local_index as int);
            crate::item::lemma_userlen_take_step(old_items, idx);
            crate::item::lemma_userlen_take_le(old_items, idx);
        }
        let e = cursor.here_ptr();
        let i = cursor.local_index - 1;
        let head_h = self.nodes[0].height;
        let ghost v = self.nodes@[e as int].items@[idx];
        let new_usersize = self.nodes[e].items[i].get_usersize();
        self.num_usercount = self.num_usercount - old_usersize + new_usersize;
        proof {
            crate::item::lemma_userlen_update(old_items, idx, v);
            assert forall|l: int| 0 <= l < head_h implies {
                let m = (#[trigger] cursor.entries[l]).node;
                &&& m < self.nodes@.len()
                &&& l < self.nodes@[m as int].nexts@.len()
                &&& self.nodes@[m as int].nexts@[l].skip_usersize >= old_usersize
                &&& self.nodes@[m as int].nexts@[l].skip_usersize - old_usersize + new_usersize <= usize::MAX
            } by {
                assert(pre.entry_ok(cursor, l));
                pre.lemma_owner_skip(c, l);
                let q = prev_from(pre.hs(), c, l);
                if q > 0 {
                    assert(pre.node_shape(q));
                }
                let m = cursor.entries[l].node;
                assert(self.nodes@[m as int].nexts == pre.nodes@[m as int].nexts);
            }
        }
        cursor.update_offsets(self, head_h, new_usersize, old_usersize);
        proof {
            assert forall|m: int, l: int|
                0 <= m < self.nodes@.len() && 0 <= l < self.nodes@[m].nexts@.len() implies (#[trigger] self.entry(
                m,
                l,
            )).skip_usersize == pre.resized_skip(c, new_usersize as int, old_usersize as int, m, l) && self.entry(
                m,
                l,
            ).node == pre.entry(m, l).node by {
                assert(mid.nodes@[m].nexts == pre.nodes@[m].nexts);
                assert(self.entry(m, l).node == mid.entry(m, l).node);
                if l < head_h {
                    assert(pre.entry_ok(cursor, l));
                }
            }
            assert forall|n: int| 0 <= n < self.nodes@.len() implies {
                &&& (#[trigger] self.nodes@[n]).height == pre.nodes@[n].height
                &&& self.nodes@[n].parent == pre.nodes@[n].parent
                &&& self.nodes@[n].nexts@.len() == pre.nodes@[n].nexts@.len()
            } by {
                assert(mid.nodes@[n].height == pre.nodes@[n].height);
            }
            assert forall|n: int| 0 <= n < self.nodes@.len() && n != pre.order@[c] implies (
            #[trigger] self.nodes@[n]).items@ == pre.nodes@[n].items@ by {
                assert(mid.nodes@[n] == pre.nodes@[n]);
            }
            assert(self.resized(&pre, c, new_usersize as int, old_usersize as int));
            self.lemma_resized_inv(&pre, c, new_usersize as int, old_usersize as int);
            assert forall|l: int| 0 <= l < head_h implies (#[trigger] cursor.entries[l]).skip_usersize
                >= old_usersize by {
                assert(pre.entry_ok(cursor, l));
                crate::model::lemma_prev_props(pre.hs(), c, l);
                crate::model::lemma_prefix_mono(pre.szs(), prev_from(pre.hs(), c, l), c);
            }
        }
        cursor.move_to_item_start(head_h, old_usersize);
        proof {
            assert forall|l: int| 0 <= l < head_h implies (#[trigger] cursor.entries[l]).skip_usersize
                + new_usersize <= usize::MAX by {
                assert(pre.entry_ok(&cur, l));
            }
        }
        cursor.skip_forward(head_h, new_usersize);
        proof {
            self.lemma_resized_cursor(
                &pre,
                c,
                new_usersize as int,
                old_usersize as int,
                &cur,
                cursor,
                new_usersize - old_usersize,
            );
            assert(old_items.update(idx, v) =~= old_items.take(idx) + seq![v] + old_items.skip(idx + 1));
            self.lemma_view_replaced(&pre, c, idx, 1, seq![v]);
            let i0 = pre.cursor_index(&cur);
            assert(self@ =~= pre@.update(i0 - 1, v));
            let its = self.node(c).items@;
            assert(its.subrange(idx, idx + 1) =~= seq![its[idx]]);
            assert(self.cnts() =~= pre.cnts());
        }
        let slice = slice_subrange(self.nodes[e].items.as_slice(), i, i + 1);
        notify.notify(slice, ItemMarker { ptr: e, _phantom: PhantomData });
    }

    /// Lets `modify_fn` change the item before the cursor.
    pub(crate) fn modify_prev_item<F: FnOnce(&mut Item)>(&mut self, cursor: &mut Cursor, modify_fn: F, notify: &mut N)
        requires
            old(self).inv(),
            old(self).cursor_ok(old(cursor)),
            old(cursor).local_index > 0,
            forall|r: &mut Item|
                mut_ref_current(r) == old(self)@[old(self).cursor_index(old(cursor)) - 1] ==> call_requires(
                    modify_fn,
                    (r,),
                ),
            forall|r: &mut Item|
                mut_ref_current(r) == old(self)@[old(self).cursor_index(old(cursor)) - 1] && call_ensures(
                    modify_fn,
                    (r,),
                    (),
                ) ==> old(self).num_usercount - mut_ref_current(r).usersize() + mut_ref_future(r).usersize()
                    <= usize::MAX && old(cursor).userpos - mut_ref_current(r).usersize() + mut_ref_future(
                    r,
                ).usersize() <= usize::MAX,
        ensures
            final(self).inv(),
            final(self).cursor_ok(final(cursor)),
            final(self).residual(final(cursor)) == old(self).residual(old(cursor)),
            final(self).cursor_index(final(cursor)) == old(self).cursor_index(old(cursor)),
            final(cursor).pos == old(cursor).pos,
            final(cursor).local_index == old(cursor).local_index,
            exists|r: &mut Item|
                mut_ref_current(r) == old(self)@[old(self).cursor_index(old(cursor)) - 1] && call_ensures(
                    modify_fn,
                    (r,),
                    (),
                ) && final(self)@ == old(self)@.update(
                    old(self).cursor_index(old(cursor)) - 1,
                    mut_ref_future(r),
                ),
            final(self).len() == old(self).len(),
            final(self).cnts() == old(self).cnts(),
            final(self).head_height() == old(self).head_height(),
            N::keeps_track() ==> final(notify).told() == old(notify).told().push(
                final(self).prev_note(final(cursor)),
            ) && final(self).holds_at(
                final(self).prev_note(final(cursor)),
                final(cursor).pos@,
                final(cursor).local_index - 1,
            ),
    {
        let ghost pre = *self;
        proof {
            self.lemma_here(cursor);
            self.lemma_cursor_lands(cursor);
            self.lemma_unfold();
            crate::model::lemma_flatten_index(self.contents(), cursor.pos@, cursor.local_index - 1);
        }
        let e = cursor.here_ptr();
        let i = cursor.local_index - 1;
        let old_usersize = self.nodes[e].items[i].get_usersize();
        let item = &mut self.nodes[e].items[i];
        modify_fn(item);
        self.finish_modify(cursor, old_usersize, Ghost(pre), notify);
    }

    /// Lets `modify_fn` change the item before the cursor, and hands it
    /// `offset`.
    pub(crate) fn modify_prev_item_at<F: FnOnce(&mut Item, usize)>(
        &mut self,
        cursor: &mut Cursor,
        modify_fn: F,
        offset: usize,
        notify: &mut N,
    )
        requires
            old(self).inv(),
            old(self).cursor_ok(old(cursor)),
            old(cursor).local_index > 0,
            forall|r: &mut Item|
                mut_ref_current(r) == old(self)@[old(self).cursor_index(old(cursor)) - 1] ==> call_requires(
                    modify_fn,
                    (r, offset),
                ),
            forall|r: &mut Item|
                mut_ref_current(r) == old(self)@[old(self).cursor_index(old(cursor)) - 1] && call_ensures(
                    modify_fn,
                    (r, offset),
                    (),
                ) ==> old(self).num_usercount - mut_ref_current(r).usersize() + mut_ref_future(r).usersize()
                    <= usize::MAX && old(cursor).userpos - mut_ref_current(r).usersize() + mut_ref_future(
                    r,
                ).usersize() <= usize::MAX,
        ensures
            final(self).inv(),
            final(self).cursor_ok(final(cursor)),
            final(self).cursor_index(final(cursor)) == old(self).cursor_index(old(cursor)),
            final(cursor).pos == old(cursor).pos,
            final(cursor).local_index == old(cursor).local_index,
            exists|r: &mut Item|
                mut_ref_current(r) == old(self)@[old(self).cursor_index(old(cursor)) - 1] && call_ensures(
                    modify_fn,
                    (r, offset),
                    (),
                ) && final(self)@ == old(self)@.update(
                    old(self).cursor_index(old(cursor)) - 1,
                    mut_ref_future(r),
                ),
            final(self).len() == old(self).len(),
            final(self).cnts() == old(self).cnts(),
            final(self).head_height() == old(self).head_height(),
            N::keeps_track() ==> final(notify).told() == old(notify).told().push(
                final(self).prev_note(final(cursor)),
            ) && final(self).holds_at(
                final(self).prev_note(final(cursor)),
                final(cursor).pos@,
                final(cursor).local_index - 1,
            ),
    {
        let ghost pre = *self;
        proof {
            self.lemma_here(cursor);
            self.lemma_cursor_lands(cursor);
            self.lemma_unfold();
            crate::model::lemma_flatten_index(self.contents(), cursor.pos@, cursor.local_index - 1);
        }
        let e = cursor.here_ptr();
        let i = cursor.local_index - 1;
        let old_usersize = self.nodes[e].items[i].get_usersize();
        let item = &mut self.nodes[e].items[i];
        modify_fn(item, offset);
        self.finish_modify(cursor, old_usersize, Ghost(pre), notify);
    }
}

impl<Item: ListItem, N: NotifyTarget<Item>> SkipList<Item, N> {
    /// Puts `replacement` in place of the item before the cursor.
    pub(crate) fn set_prev_item(&mut self, cursor: &mut Cursor, replacement: Item, notify: &mut N)
        requires
            old(self).inv(),
            old(self).cursor_ok(old(cursor)),
            old(cursor).local_index > 0,
            old(self).num_usercount + replacement.usersize() <= usize::MAX,
            old(cursor).userpos + replacement.usersize() <= usize::MAX,
        ensures
            final(self).inv(),
            final(self).cursor_ok(final(cursor)),
            final(self).residual(final(cursor)) == old(self).residual(old(cursor)),
            final(self).cursor_index(final(cursor)) == old(self).cursor_index(old(cursor)),
            final(cursor).pos == old(cursor).pos,
            final(cursor).local_index == old(cursor).local_index,
            final(self)@ == old(self)@.update(old(self).cursor_index(old(cursor)) - 1, replacement),
            final(self).len() == old(self).len(),
            final(self).cnts() == old(self).cnts(),
            final(self).head_height() == old(self).head_height(),
            N::keeps_track() ==> final(notify).told() == old(notify).told().push(
                final(self).prev_note(final(cursor)),
            ) && final(self).holds_at(
                final(self).prev_note(final(cursor)),
                final(cursor).pos@,
                final(cursor).local_index - 1,
            ),
    {
        let ghost pre = *self;
        proof {
            self.lemma_here(cursor);
            self.lemma_cursor_lands(cursor);
            self.lemma_cursor_skips(cursor);
            self.lemma_owner_skip(cursor.pos@, 0);
            crate::item::lemma_userlen_take_step(self.node(cursor.pos@).items@, cursor.local_index - 1);
            crate::item::lemma_userlen_take_le(self.node(cursor.pos@).items@, cursor.local_index as int);
            crate::item::lemma_userlen_take_le(self.node(cursor.pos@).items@, cursor.local_index - 1);
        }
        let e = cursor.here_ptr();
        let i = cursor.local_index - 1;
        let old_usersize = self.nodes[e].items[i].get_usersize();
        self.nodes[e].items[i] = replacement;
        self.finish_modify(cursor, old_usersize, Ghost(pre), notify);
    }
}

} // verus!
