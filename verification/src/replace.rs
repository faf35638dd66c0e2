//! Replacement: items are overwritten in place as far as old and new items
//! pair up, and what is left over is inserted or deleted.

use vstd::prelude::*;
use vstd::slice::slice_subrange;
use std::marker::PhantomData;
use crate::item::ListItem;
use crate::item::userlen;
use crate::item::userlen_of_slice;
use crate::item::lemma_userlen_concat;
use crate::item::lemma_userlen_split;
use crate::model::prev_from;
use crate::cursor::Cursor;
use crate::node::ItemMarker;
use crate::node::marker_of;
use crate::node::NotifyTarget;
use crate::node::NODE_NUM_ITEMS;
use crate::skiplist::SkipList;

verus! {

impl<Item: ListItem, N: NotifyTarget<Item>> SkipList<Item, N> {
    /// Overwrites the items from the cursor on, all in the cursor's node,
    /// with `chunk`, one for one, and leaves the cursor behind them.
    #[verifier::rlimit(30)]
    pub(crate) fn replace_in_node(&mut self, cursor: &mut Cursor, chunk: Vec<Item>, notify: &mut N)
        requires
            old(self).inv(),
            old(self).cursor_ok(old(cursor)),
            old(self).residual(old(cursor)) == 0,
            old(cursor).pos@ >= 1,
            chunk@.len() >= 1,
            old(cursor).local_index + chunk@.len() <= old(self).node(old(cursor).pos@).items@.len(),
            old(self).num_usercount - userlen(
                old(self).node(old(cursor).pos@).items@.subrange(
                    old(cursor).local_index as int,
                    old(cursor).local_index + chunk@.len(),
                ),
            ) + userlen(chunk@) <= usize::MAX,
        ensures
            final(self).inv(),
            final(self).cursor_exact(final(cursor)),
            final(cursor).pos@ == old(cursor).pos@,
            final(cursor).local_index == old(cursor).local_index + chunk@.len(),
            final(self).cursor_index(final(cursor)) == old(self).cursor_index(old(cursor)) + chunk@.len(),
            old(self).cursor_index(old(cursor)) + chunk@.len() <= old(self)@.len(),
            final(self)@ == old(self)@.take(old(self).cursor_index(old(cursor))) + chunk@ + old(self)@.skip(
                old(self).cursor_index(old(cursor)) + chunk@.len(),
            ),
            final(self).num_usercount == old(self).num_usercount - userlen(
                old(self).node(old(cursor).pos@).items@.subrange(
                    old(cursor).local_index as int,
                    old(cursor).local_index + chunk@.len(),
                ),
            ) + userlen(chunk@),
            final(self).num_items == old(self).num_items,
            final(cursor).userpos == old(cursor).userpos + userlen(chunk@),
            final(self).rng == old(self).rng,
            final(self).len() == old(self).len(),
            final(self).cnts() == old(self).cnts(),
            final(self).wrote(
                old(self),
                old(cursor),
                final(cursor),
                old(notify).told(),
                final(notify).told(),
                seq![(old(cursor).pos@, old(cursor).local_index as int)],
                false,
            ),
    {
        let ghost pre = *self;
        let ghost told0 = notify.told();
        let ghost cur = *cursor;
        let ghost c = cursor.pos@;
        let ghost x = chunk@;
        let ghost old_items = self.node(c).items@;
        let e = cursor.here_ptr();
        let idx = cursor.local_index;
        let n = chunk.len();
        let head_h = self.nodes[0].height;
        let ghost gone = old_items.subrange(idx as int, idx + n);
        proof {
            assert(self.entry_ok(cursor, 0));
            crate::model::lemma_prev_props(self.hs(), c, 0);
            assert(self.node_shape(c));
            crate::model::lemma_prev_unique(self.hs(), c, 0, c);
            self.lemma_owner_skip(c, 0);
            self.lemma_cursor_lands(cursor);
            crate::item::lemma_userlen_subrange(old_items, idx as int, idx + n);
            lemma_userlen_split(old_items, idx + n);
        }
        let old_usersize = userlen_of_slice(slice_subrange(self.nodes[e].items.as_slice(), idx, idx + n));
        let new_usersize = userlen_of_slice(chunk.as_slice());
        let mut chunk = chunk;
        let mut tail = self.nodes[e].items.split_off(idx + n);
        self.nodes[e].items.truncate(idx);
        self.nodes[e].items.append(&mut chunk);
        self.nodes[e].items.append(&mut tail);
        self.num_usercount = self.num_usercount - old_usersize + new_usersize;
        let ghost new_items = old_items.take(idx as int) + x + old_items.skip(idx + n);
        proof {
            assert(self.nodes@[e as int].items@ =~= new_items);
            lemma_userlen_concat(old_items.take(idx as int), x);
            lemma_userlen_concat(old_items.take(idx as int) + x, old_items.skip(idx + n));
            assert forall|i: int| 0 <= i < head_h implies {
                let m = (#[trigger] cursor.entries[i]).node;
                &&& m < self.nodes@.len()
                &&& i < self.nodes@[m as int].nexts@.len()
                &&& self.nodes@[m as int].nexts@[i].skip_usersize >= old_usersize
                &&& self.nodes@[m as int].nexts@[i].skip_usersize - old_usersize + new_usersize <= usize::MAX
            } by {
                assert(pre.entry_ok(cursor, i));
                pre.lemma_owner_skip(c, i);
                let q = prev_from(pre.hs(), c, i);
                if q > 0 {
                    assert(pre.node_shape(q));
                }
            }
        }
        cursor.update_offsets(self, head_h, new_usersize, old_usersize);
        proof {
            assert forall|m: int, l: int|
                0 <= m < self.nodes@.len() && 0 <= l < self.nodes@[m].nexts@.len() implies (#[trigger] self.entry(
                m,
                l,
            )).skip_usersize == pre.resized_skip(c, new_usersize as int, old_usersize as int, m, l) by {
                if l < head_h {
                    assert(pre.entry_ok(cursor, l));
                }
            }
            assert(self.resized(&pre, c, new_usersize as int, old_usersize as int));
            self.lemma_resized_inv(&pre, c, new_usersize as int, old_usersize as int);
            assert forall|i: int| 0 <= i < head_h implies (#[trigger] cursor.entries[i]).skip_usersize
                + new_usersize <= usize::MAX by {
                assert(pre.entry_ok(cursor, i));
            }
        }
        cursor.skip_forward(head_h, new_usersize);
        cursor.local_index = cursor.local_index + n;
        proof {
            assert(new_items.take(idx + n) =~= old_items.take(idx as int) + x);
            crate::model::lemma_prefix_mono(self.szs(), c + 1, self.len());
            assert(self.start(c + 1) == self.start(c) + self.szs()[c]);
            crate::item::lemma_userlen_take_le(new_items, idx + n);
            assert(self.start(c) == pre.start(c));
            self.lemma_resized_cursor(
                &pre,
                c,
                new_usersize as int,
                old_usersize as int,
                &cur,
                cursor,
                new_usersize as int,
            );
            self.lemma_view_replaced(&pre, c, idx as int, n as int, x);
            assert(new_items.take(idx as int) =~= old_items.take(idx as int));
            assert(new_items.subrange(idx as int, idx + n) =~= x);
            assert(self.contents().take(c) =~= pre.contents().take(c));
            assert(self.cnts() =~= pre.cnts());
        }
        let slice = slice_subrange(self.nodes[e].items.as_slice(), idx, idx + n);
        notify.notify(slice, ItemMarker { ptr: e, _phantom: PhantomData });
        proof {
            if N::keeps_track() {
                assert(notify.told().take(told0.len() as int) =~= told0);
            }
            self.lemma_unfold();
            pre.lemma_unfold();
            pre.lemma_cursor_lands(&cur);
            let i0 = pre.cursor_index(&cur);
            assert(pre@.take(i0).len() == i0);
            assert(self@.subrange(i0, i0 + n) =~= x);
            self.lemma_wrote_one(&pre, &cur, cursor, told0, notify.told(), c, idx as int);
        }
    }

    /// Overwrites items from the cursor on with items from the front of
    /// `contents`, as many as there are left in one node, and hands back
    /// the rest of `contents`. The cursor ends up behind the new items.
    #[verifier::rlimit(20)]
    pub(crate) fn overwrite_step(&mut self, cursor: &mut Cursor, contents: Vec<Item>, notify: &mut N) -> (r: (
        Vec<Item>,
        Ghost<(int, int)>,
    ))
        requires
            old(self).inv(),
            old(self).cursor_ok(old(cursor)),
            old(self).residual(old(cursor)) == 0,
            contents@.len() >= 1,
            old(self).cursor_index(old(cursor)) + contents@.len() <= old(self)@.len(),
            old(self).num_usercount + userlen(contents@) <= usize::MAX,
        ensures
            final(self).inv(),
            final(self).cursor_exact(final(cursor)),
            r.0@.len() < contents@.len(),
            r.0@ == contents@.skip(contents@.len() - r.0@.len()),
            final(self).cursor_index(final(cursor)) == old(self).cursor_index(old(cursor)) + contents@.len()
                - r.0@.len(),
            final(self)@ == old(self)@.take(old(self).cursor_index(old(cursor))) + contents@.take(
                contents@.len() - r.0@.len(),
            ) + old(self)@.skip(old(self).cursor_index(old(cursor)) + contents@.len() - r.0@.len()),
            final(self).num_usercount + userlen(r.0@) <= old(self).num_usercount + userlen(contents@),
            final(self).num_items == old(self).num_items,
            final(self).rng == old(self).rng,
            final(self).cnts() == old(self).cnts(),
            final(self).wrote(
                old(self),
                old(cursor),
                final(cursor),
                old(notify).told(),
                final(notify).told(),
                seq![r.1@],
                false,
            ),
    {
        let ghost first = *self;
        let ghost cur0 = *cursor;
        let ghost told0 = notify.told();
        let ghost x = contents@;
        let ghost c = cursor.pos@;
        proof {
            self.lemma_unfold();
            crate::model::lemma_flatten_len(self.contents());
            assert(self.first_item(c + 1) == self.first_item(c) + self.cnts()[c]);
            crate::model::lemma_prefix_mono(self.cnts(), c + 1, self.len());
            self.lemma_here(cursor);
        }
        let mut e = cursor.here_ptr();
        if cursor.local_index == self.nodes[e].items.len() {
            e = cursor.advance_node(self);
            proof {
                assert(self.node_shape(c + 1));
            }
        }
        let ghost cur1 = *cursor;
        proof {
            self.lemma_keeps_behind_self(c, cur0.local_index as int);
            self.lemma_wrote_nothing(&first, &cur0, &cur1, told0);
        }
        let index = cursor.local_index;
        let e_num_items = self.nodes[e].items.len();
        let mut contents = contents;
        let here = if contents.len() < e_num_items - index {
            contents.len()
        } else {
            e_num_items - index
        };
        let rest = contents.split_off(here);
        proof {
            lemma_userlen_split(x, here as int);
            assert(contents@ =~= x.take(here as int));
            assert(rest@ =~= x.skip(here as int));
            let items = self.node(cursor.pos@).items@;
            crate::item::lemma_userlen_subrange(items, index as int, index + here);
        }
        self.replace_in_node(cursor, contents, notify);
        let ghost mark = (cur1.pos@, cur1.local_index as int);
        proof {
            self.lemma_wrote_twice(
                &first,
                &first,
                &cur0,
                &cur1,
                cursor,
                told0,
                told0,
                notify.told(),
                Seq::<(int, int)>::empty(),
                seq![mark],
                false,
            );
            assert(Seq::<(int, int)>::empty() + seq![mark] =~= seq![mark]);
        }
        (rest, Ghost(mark))
    }

    /// Overwrites the items from the cursor on with `contents`, one for
    /// one, and leaves the cursor behind them.
    pub(crate) fn overwrite_run(&mut self, cursor: &mut Cursor, contents: Vec<Item>, notify: &mut N) -> (marks: Ghost<
        Seq<(int, int)>,
    >)
        requires
            old(self).inv(),
            old(self).cursor_ok(old(cursor)),
            old(self).residual(old(cursor)) == 0,
            contents@.len() >= 1,
            old(self).cursor_index(old(cursor)) + contents@.len() <= old(self)@.len(),
            old(self).num_usercount + userlen(contents@) <= usize::MAX,
        ensures
            final(self).inv(),
            final(self).cursor_exact(final(cursor)),
            final(self).cursor_index(final(cursor)) == old(self).cursor_index(old(cursor)) + contents@.len(),
            final(self)@ == old(self)@.take(old(self).cursor_index(old(cursor))) + contents@ + old(self)@.skip(
                old(self).cursor_index(old(cursor)) + contents@.len(),
            ),
            final(self).num_usercount <= old(self).num_usercount + userlen(contents@),
            final(self).num_items == old(self).num_items,
            final(self).rng == old(self).rng,
            final(self).cnts() == old(self).cnts(),
            final(self).wrote(
                old(self),
                old(cursor),
                final(cursor),
                old(notify).told(),
                final(notify).told(),
                marks@,
                false,
            ),
    {
        let ghost first = *self;
        let ghost cur0 = *cursor;
        let ghost told0 = notify.told();
        let ghost i0 = self.cursor_index(cursor);
        let ghost x = contents@;
        proof {
            self.lemma_cursor_lands(cursor);
        }
        let step = self.overwrite_step(cursor, contents, notify);
        let mut remaining = step.0;
        let ghost mut marks: Seq<(int, int)> = seq![step.1@];
        while remaining.len() > 0
            invariant
                self.inv(),
                self.cursor_exact(cursor),
                remaining@.len() < x.len(),
                remaining@ == x.skip(x.len() - remaining@.len()),
                self.cursor_index(cursor) == i0 + x.len() - remaining@.len(),
                0 <= i0,
                i0 + x.len() <= first@.len(),
                self@ == first@.take(i0) + x.take(x.len() - remaining@.len()) + first@.skip(
                    i0 + x.len() - remaining@.len(),
                ),
                self.num_usercount + userlen(remaining@) <= first.num_usercount + userlen(x),
                self.num_items == first.num_items,
                self.rng == first.rng,
                self.cnts() == first.cnts(),
                first.num_usercount + userlen(x) <= usize::MAX,
                self.wrote(&first, &cur0, cursor, told0, notify.told(), marks, false),
            decreases remaining@.len(),
        {
            let ghost before = *self;
            let ghost cur_before = *cursor;
            let ghost told_before = notify.told();
            let ghost rem0 = remaining@;
            let ghost done = x.len() - rem0.len();
            proof {
                assert(first@.take(i0).len() == i0);
                assert(x.take(done).len() == done);
                assert(before@.len() == first@.len());
            }
            let step = self.overwrite_step(cursor, remaining, notify);
            let rest = step.0;
            proof {
                let here = rem0.len() - rest@.len();
                assert(rest@ =~= x.skip(done + here));
                assert(x.take(done + here) =~= x.take(done) + rem0.take(here));
                let j = i0 + done;
                assert(before@.take(j) =~= first@.take(i0) + x.take(done));
                assert(before@.skip(j + here) =~= first@.skip(i0 + done + here));
                assert(self@ =~= first@.take(i0) + x.take(done + here) + first@.skip(i0 + done + here));
                self.lemma_wrote_twice(
                    &before,
                    &first,
                    &cur0,
                    &cur_before,
                    cursor,
                    told0,
                    told_before,
                    notify.told(),
                    marks,
                    seq![step.1@],
                    false,
                );
                marks = marks + seq![step.1@];
            }
            remaining = rest;
        }
        proof {
            assert(x.take(x.len() as int) =~= x);
            assert(remaining@ =~= Seq::<Item>::empty());
            crate::item::lemma_userlen_empty::<Item>();
        }
        Ghost(marks)
    }

    /// Inserts `rest` at the cursor, or deletes `removed` items there where
    /// there is nothing to insert: what is left to do of a replacement once
    /// old and new items have been paired off.
    pub(crate) fn finish_replace(&mut self, cursor: &mut Cursor, removed: usize, rest: Vec<Item>, notify: &mut N) -> (told: (
        Ghost<Seq<(int, int)>>,
        Ghost<bool>,
    ))
        requires
            old(self).inv(),
            old(self).cursor_ok(old(cursor)),
            old(self).residual(old(cursor)) == 0,
            removed == 0 || rest@.len() == 0,
            removed > 0 || rest@.len() > 0 ==> old(self).cursor_exact(old(cursor)),
            old(self).cursor_index(old(cursor)) + removed <= old(self)@.len(),
            old(self).num_usercount + userlen(rest@) <= usize::MAX,
            old(self).num_items + rest@.len() <= usize::MAX,
        ensures
            final(self).inv(),
            final(self).cursor_ok(final(cursor)),
            final(self).residual(final(cursor)) == 0,
            removed > 0 || rest@.len() > 0 ==> final(self).cursor_exact(final(cursor)),
            removed == 0 && rest@.len() == 0 ==> *final(cursor) == *old(cursor),
            final(self).cursor_index(final(cursor)) == old(self).cursor_index(old(cursor)) + rest@.len(),
            final(self)@ == old(self)@.take(old(self).cursor_index(old(cursor))) + rest@ + old(self)@.skip(
                old(self).cursor_index(old(cursor)) + removed,
            ),
            final(self).parts() == crate::position::respread(
                old(self).parts(),
                old(self).cursor_index(old(cursor)),
                removed as int,
                rest@.len() as int,
            ),
            final(self).wrote(
                old(self),
                old(cursor),
                final(cursor),
                old(notify).told(),
                final(notify).told(),
                told.0@,
                told.1@,
            ),
    {
        let ghost first = *self;
        let ghost cur0 = *cursor;
        let ghost i0 = self.cursor_index(cursor);
        proof {
            self.lemma_cursor_lands(cursor);
            self.lemma_keeps_behind_self(cursor.pos@, cursor.local_index as int);
        }
        if rest.len() > 0 {
            let sent = self.insert_at_iter(cursor, rest, notify);
            (sent.0, sent.1)
        } else if removed > 0 {
            self.del_at_iter(cursor, removed);
            proof {
                assert(rest@ =~= Seq::<Item>::empty());
                assert(self@ =~= first@.take(i0) + rest@ + first@.skip(i0 + removed));
                self.lemma_wrote_nothing(&first, &cur0, cursor, notify.told());
            }
            let ghost none = Seq::<(int, int)>::empty();
            (Ghost(none), Ghost(false))
        } else {
            proof {
                assert(rest@ =~= Seq::<Item>::empty());
                assert(self@ =~= first@.take(i0) + rest@ + first@.skip(i0 + removed));
                self.lemma_wrote_nothing(&first, &cur0, cursor, notify.told());
            }
            let ghost none = Seq::<(int, int)>::empty();
            (Ghost(none), Ghost(false))
        }
    }

    /// Overwrites as many items from the cursor on with items from the front
    /// of `inserted_content` as there are of both, and hands back the rest
    /// of `inserted_content`.
    pub(crate) fn pair_off(
        &mut self,
        cursor: &mut Cursor,
        removed_items: usize,
        inserted_content: Vec<Item>,
        notify: &mut N,
    ) -> (r: (Vec<Item>, usize, Ghost<Seq<(int, int)>>))
        requires
            old(self).inv(),
            old(self).cursor_ok(old(cursor)),
            old(self).residual(old(cursor)) == 0,
            old(self).cursor_index(old(cursor)) + removed_items <= old(self)@.len(),
            old(self).num_usercount + userlen(inserted_content@) <= usize::MAX,
        ensures
            final(self).inv(),
            final(self).cursor_ok(final(cursor)),
            final(self).residual(final(cursor)) == 0,
            r.1 > 0 ==> final(self).cursor_exact(final(cursor)),
            r.1 == 0 ==> *final(cursor) == *old(cursor) && *final(self) == *old(self),
            r.1 == if removed_items <= inserted_content@.len() {
                removed_items as int
            } else {
                inserted_content@.len() as int
            },
            r.0@ == inserted_content@.skip(r.1 as int),
            final(self).cursor_index(final(cursor)) == old(self).cursor_index(old(cursor)) + r.1,
            final(self)@ == old(self)@.take(old(self).cursor_index(old(cursor))) + inserted_content@.take(
                r.1 as int,
            ) + old(self)@.skip(old(self).cursor_index(old(cursor)) + r.1),
            final(self).num_usercount + userlen(r.0@) <= old(self).num_usercount + userlen(inserted_content@),
            final(self).num_items == old(self).num_items,
            final(self).cnts() == old(self).cnts(),
            final(self).wrote(
                old(self),
                old(cursor),
                final(cursor),
                old(notify).told(),
                final(notify).told(),
                r.2@,
                false,
            ),
    {
        let ghost first = *self;
        let ghost cur0 = *cursor;
        let ghost i0 = self.cursor_index(cursor);
        let ghost x = inserted_content@;
        proof {
            self.lemma_cursor_lands(cursor);
        }
        let num_inserted = inserted_content.len();
        let replaced = if removed_items < num_inserted {
            removed_items
        } else {
            num_inserted
        };
        let mut paired = inserted_content;
        let rest = paired.split_off(replaced);
        proof {
            lemma_userlen_split(x, replaced as int);
            assert(paired@ =~= x.take(replaced as int));
            assert(rest@ =~= x.skip(replaced as int));
        }
        if replaced > 0 {
            let marks = self.overwrite_run(cursor, paired, notify);
            (rest, replaced, marks)
        } else {
            proof {
                assert(self@ =~= first@.take(i0) + x.take(0) + first@.skip(i0));
                self.lemma_keeps_behind_self(cursor.pos@, cursor.local_index as int);
                self.lemma_wrote_nothing(&first, &cur0, cursor, notify.told());
            }
            let ghost none = Seq::<(int, int)>::empty();
            (rest, replaced, Ghost(none))
        }
    }

    /// Replaces `removed_items` items from the cursor on by
    /// `inserted_content`, and leaves the cursor behind the new items.
    #[verifier::rlimit(20)]
    pub(crate) fn replace_at_iter(
        &mut self,
        cursor: &mut Cursor,
        removed_items: usize,
        inserted_content: Vec<Item>,
        notify: &mut N,
    ) -> (told: (Ghost<Seq<(int, int)>>, Ghost<bool>))
        requires
            old(self).inv(),
            old(self).cursor_ok(old(cursor)),
            old(self).residual(old(cursor)) == 0,
            old(cursor).pos@ == 0 || old(cursor).local_index > 0 || (removed_items >= 1
                && inserted_content@.len() >= 1),
            old(self).cursor_index(old(cursor)) + removed_items <= old(self)@.len(),
            old(self).num_usercount + userlen(inserted_content@) <= usize::MAX,
            old(self).num_items + inserted_content@.len() <= usize::MAX,
        ensures
            final(self).inv(),
            final(self).cursor_ok(final(cursor)),
            final(self).residual(final(cursor)) == 0,
            final(cursor).pos@ == 0 || final(cursor).local_index > 0 || (removed_items == 0
                && inserted_content@.len() == 0),
            final(self).cursor_index(final(cursor)) == old(self).cursor_index(old(cursor))
                + inserted_content@.len(),
            final(self)@ == old(self)@.take(old(self).cursor_index(old(cursor))) + inserted_content@
                + old(self)@.skip(old(self).cursor_index(old(cursor)) + removed_items),
            final(self).parts() == crate::position::respread(
                old(self).parts(),
                old(self).cursor_index(old(cursor)),
                removed_items as int,
                inserted_content@.len() as int,
            ),
            final(self).wrote(
                old(self),
                old(cursor),
                final(cursor),
                old(notify).told(),
                final(notify).told(),
                told.0@,
                told.1@,
            ),
    {
        let ghost first = *self;
        let ghost cur0 = *cursor;
        let ghost told0 = notify.told();
        let ghost i0 = self.cursor_index(cursor);
        let ghost x = inserted_content@;
        proof {
            self.lemma_cursor_lands(cursor);
        }
        let paired = self.pair_off(cursor, removed_items, inserted_content, notify);
        let rest = paired.0;
        let replaced = paired.1;
        let ghost swapped = *self;
        let ghost cur1 = *cursor;
        let ghost told1 = notify.told();
        proof {
            swapped.lemma_unfold();
            first.lemma_unfold();
        }
        let sent = self.finish_replace(cursor, removed_items - replaced, rest, notify);
        proof {
            assert(first@.take(i0).len() == i0);
            assert(x.take(replaced as int).len() == replaced);
            assert(x =~= x.take(replaced as int) + x.skip(replaced as int));
            assert(swapped@.take(i0 + replaced) =~= first@.take(i0) + x.take(replaced as int));
            assert(swapped@.skip(i0 + replaced + (removed_items - replaced)) =~= first@.skip(i0 + removed_items));
            assert(self@ =~= first@.take(i0) + x + first@.skip(i0 + removed_items));
            self.lemma_wrote_twice(
                &swapped,
                &first,
                &cur0,
                &cur1,
                cursor,
                told0,
                told1,
                notify.told(),
                paired.2@,
                sent.0@,
                sent.1@,
            );
        }
        let ghost all = paired.2@ + sent.0@;
        (Ghost(all), sent.1)
    }

    /// Replaces the item at the cursor, and leaves the cursor behind it.
    pub(crate) fn replace_item(&mut self, cursor: &mut Cursor, new_item: Item, notify: &mut N) -> (mark: Ghost<
        (int, int),
    >)
        requires
            old(self).inv(),
            old(self).cursor_ok(old(cursor)),
            old(self).residual(old(cursor)) == 0,
            old(self).cursor_index(old(cursor)) < old(self)@.len(),
            old(self).num_usercount - old(self)@[old(self).cursor_index(old(cursor))].usersize()
                + new_item.usersize() <= usize::MAX,
        ensures
            final(self).inv(),
            final(self).cursor_exact(final(cursor)),
            final(self).cursor_index(final(cursor)) == old(self).cursor_index(old(cursor)) + 1,
            final(self)@ == old(self)@.take(old(self).cursor_index(old(cursor))) + seq![new_item]
                + old(self)@.skip(old(self).cursor_index(old(cursor)) + 1),
            final(self).cnts() == old(self).cnts(),
            final(self).wrote(
                old(self),
                old(cursor),
                final(cursor),
                old(notify).told(),
                final(notify).told(),
                seq![mark@],
                false,
            ),
    {
        let ghost first = *self;
        let ghost cur0 = *cursor;
        let ghost told0 = notify.told();
        let ghost c = cursor.pos@;
        let ghost i0 = self.cursor_index(cursor);
        let mut one: Vec<Item> = Vec::new();
        one.push(new_item);
        proof {
            assert(one@ =~= seq![new_item]);
            crate::item::lemma_userlen_one(new_item);
            self.lemma_unfold();
            crate::model::lemma_flatten_len(self.contents());
            assert(self.first_item(c + 1) == self.first_item(c) + self.cnts()[c]);
            crate::model::lemma_prefix_mono(self.cnts(), c + 1, self.len());
            self.lemma_here(cursor);
            self.lemma_cursor_lands(cursor);
            if c + 1 < self.len() {
                crate::model::lemma_flatten_index(self.contents(), c + 1, 0);
            }
        }
        if cursor.local_index == self.nodes[cursor.here_ptr()].items.len() {
            cursor.advance_node(self);
        }
        let ghost cur1 = *cursor;
        proof {
            let items = self.node(cursor.pos@).items@;
            let idx = cursor.local_index as int;
            assert(items.subrange(idx, idx + 1) =~= seq![items[idx]]);
            crate::item::lemma_userlen_one(items[idx]);
            self.lemma_cursor_lands(cursor);
            self.lemma_keeps_behind_self(c, cur0.local_index as int);
            self.lemma_wrote_nothing(&first, &cur0, &cur1, told0);
        }
        self.replace_in_node(cursor, one, notify);
        let ghost mark = (cur1.pos@, cur1.local_index as int);
        proof {
            self.lemma_wrote_twice(
                &first,
                &first,
                &cur0,
                &cur1,
                cursor,
                told0,
                told0,
                notify.told(),
                Seq::<(int, int)>::empty(),
                seq![mark],
                false,
            );
            assert(Seq::<(int, int)>::empty() + seq![mark] =~= seq![mark]);
        }
        Ghost(mark)
    }
}

} // verus!
