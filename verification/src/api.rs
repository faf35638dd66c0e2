//! The editing interface: an edit is a place in a list at which items can be
//! inserted, deleted, replaced and modified, one change after another.

use vstd::prelude::*;
use crate::item::ListItem;
use crate::item::userlen;
use crate::cursor::Cursor;
use crate::cursor::lands;
use crate::node::ItemMarker;
use crate::node::NotifyTarget;
use crate::notes::slices;
use crate::model::flatten;
use crate::position::inserted;
use crate::position::deleted;
use crate::position::replaced;
use crate::position::inserted_within;
use crate::position::inserted_at;
use crate::position::index_at;
use crate::position::offset_at;
use crate::position::lemma_lands_at;
use crate::position::trimmed;
use crate::position::spread;
use crate::position::respread;
use crate::position::spread_within;
use crate::position::spread_for;
use crate::position::chunks;
use crate::skiplist::SkipList;

verus! {

/// A place in a list, with the list and the sink of notifications borrowed
/// for as long as editing goes on there.
pub struct Edit<'a, Item: ListItem, N: NotifyTarget<Item> = ()> {
    pub list: &'a mut SkipList<Item, N>,
    pub cursor: Cursor,
    pub notify: &'a mut N,
}

impl<'a, Item: ListItem, N: NotifyTarget<Item>> Edit<'a, Item, N> {
    /// The list is well formed and the edit is at a place in it.
    pub closed spec fn wf(&self) -> bool {
        &&& self.list.inv()
        &&& self.list.cursor_ok(&self.cursor)
    }

    /// The items of the list as it is now.
    pub open spec fn items(&self) -> Seq<Item> {
        self.list@
    }

    /// The index in the list of the item that the edit is at or in.
    pub closed spec fn index(&self) -> int {
        self.list.cursor_index(&self.cursor)
    }

    /// How far into that item the edit stands, in user units: 0 where it
    /// stands between two items.
    pub closed spec fn offset(&self) -> int {
        self.list.residual(&self.cursor)
    }

    /// The edit holds on to the item before it. This is so of an edit made
    /// from a user position that falls between two items, and after every
    /// insertion, replacement and step forward. It need not be so of an
    /// edit that was made from a marker and has not moved yet: items can be
    /// read and modified there, and replaced one for one.
    pub closed spec fn anchored(&self) -> bool {
        self.cursor.pos@ == 0 || self.cursor.local_index > 0
    }

    /// The edit stands at or in an item of the node it is in.
    pub closed spec fn inside(&self) -> bool {
        self.cursor.local_index < self.list.node(self.cursor.pos@).items@.len()
    }

    /// The user position of the edit.
    pub closed spec fn position(&self) -> nat {
        self.cursor.userpos as nat
    }

    /// What an edit says of the items before it.
    pub proof fn lemma_position(&self)
        requires
            self.wf(),
        ensures
            0 <= self.index() <= self.items().len(),
            0 <= self.offset(),
            self.position() == userlen(self.items().take(self.index())) + self.offset(),
            self.inside() ==> self.index() < self.items().len(),
    {
        self.list.lemma_unfold();
        self.list.lemma_cursor_lands(&self.cursor);
    }

    /// Deletes `num_items` items from the edit on.
    pub fn del(&mut self, num_items: usize)
        requires
            old(self).wf(),
            old(self).anchored(),
            old(self).offset() == 0,
            old(self).index() + num_items <= old(self).items().len(),
        ensures
            final(self).wf(),
            final(self).anchored(),
            final(self).offset() == 0,
            final(self).index() == old(self).index(),
            final(self).items() == deleted(old(self).items(), old(self).index(), num_items as int),
            final(self).list.parts() == trimmed(old(self).list.parts(), old(self).index(), num_items as int),
            final(self).list.spec_height() == old(self).list.spec_height(),
            final(self).notify.told() == old(self).notify.told(),
            *final(final(self).list) == *final(old(self).list),
            *final(final(self).notify) == *final(old(self).notify),
    {
        proof {
            self.list.lemma_unfold();
        }
        self.list.del_at_iter(&self.cursor, num_items);
        proof {
            self.list.lemma_unfold();
        }
    }

    /// Inserts `contents` at the edit, which moves on behind them.
    pub fn insert_iter(&mut self, contents: Vec<Item>)
        requires
            old(self).wf(),
            old(self).anchored(),
            old(self).offset() == 0,
            userlen(old(self).items()) + userlen(contents@) <= usize::MAX,
            old(self).items().len() + contents@.len() <= usize::MAX,
        ensures
            final(self).wf(),
            final(self).anchored(),
            final(self).offset() == 0,
            final(self).index() == old(self).index() + contents@.len(),
            final(self).items() == inserted(old(self).items(), old(self).index(), contents@),
            final(self).list.parts() == spread(old(self).list.parts(), old(self).index(), contents@.len() as int),
            final(self).list.spec_height() >= old(self).list.spec_height(),
            N::keeps_track() ==> final(self).list.tells(old(self).notify.told(), final(self).notify.told()),
            N::keeps_track() ==> told_in_order(
                final(self).notify.told().skip(old(self).notify.told().len() as int),
                contents@,
            ),
            *final(final(self).list) == *final(old(self).list),
            *final(final(self).notify) == *final(old(self).notify),
    {
        let ghost pre = *self.list;
        let ghost cur = self.cursor;
        let ghost told = self.notify.told();
        proof {
            self.list.lemma_unfold();
            crate::model::lemma_flatten_userlen(self.list.contents());
            crate::model::lemma_flatten_len(self.list.contents());
        }
        if contents.len() == 0 {
            proof {
                assert(contents@ =~= Seq::<Item>::empty());
                self.lemma_position();
                assert(self.items() =~= inserted(self.items(), self.index(), contents@));
                assert(told.take(told.len() as int) =~= told);
                let news = told.skip(told.len() as int);
                assert(slices(news.take(news.len() - 0)) =~= Seq::<Seq<Item>>::empty());
            }
            return ;
        }
        let ghost x = contents@;
        let sent = self.list.insert_at_iter(&mut self.cursor, contents, self.notify);
        proof {
            self.list.lemma_wrote_tells(&pre, &cur, &self.cursor, told, self.notify.told(), sent.0@, sent.1@);
            pre.lemma_unfold();
            self.list.lemma_unfold();
            let i0 = pre.cursor_index(&cur);
            pre.lemma_cursor_lands(&cur);
            assert(pre@.take(i0).len() == i0);
            assert(self.list@.subrange(i0, i0 + x.len()) =~= x);
        }
    }

    /// Inserts one item at the edit.
    pub fn insert(&mut self, item: Item)
        requires
            old(self).wf(),
            old(self).anchored(),
            old(self).offset() == 0,
            userlen(old(self).items()) + item.usersize() <= usize::MAX,
            old(self).items().len() + 1 <= usize::MAX,
        ensures
            final(self).wf(),
            final(self).anchored(),
            final(self).offset() == 0,
            final(self).index() == old(self).index() + 1,
            final(self).items() == inserted(old(self).items(), old(self).index(), seq![item]),
            final(self).list.parts() == spread(old(self).list.parts(), old(self).index(), 1),
            final(self).list.spec_height() >= old(self).list.spec_height(),
            N::keeps_track() ==> final(self).list.tells(old(self).notify.told(), final(self).notify.told()),
            N::keeps_track() ==> told_in_order(
                final(self).notify.told().skip(old(self).notify.told().len() as int),
                seq![item],
            ),
            *final(final(self).list) == *final(old(self).list),
            *final(final(self).notify) == *final(old(self).notify),
    {
        let mut one: Vec<Item> = Vec::new();
        one.push(item);
        proof {
            assert(one@ =~= seq![item]);
            crate::item::lemma_userlen_one(item);
        }
        self.insert_iter(one);
    }

    /// Replaces `removed_items` items from the edit on by
    /// `inserted_content`. The edit moves on behind the new items.
    pub fn replace(&mut self, removed_items: usize, inserted_content: Vec<Item>)
        requires
            old(self).wf(),
            old(self).offset() == 0,
            old(self).anchored() || (removed_items >= 1 && inserted_content@.len() >= 1),
            old(self).index() + removed_items <= old(self).items().len(),
            userlen(old(self).items()) + userlen(inserted_content@) <= usize::MAX,
            old(self).items().len() + inserted_content@.len() <= usize::MAX,
        ensures
            final(self).wf(),
            final(self).offset() == 0,
            final(self).anchored() || (removed_items == 0 && inserted_content@.len() == 0),
            final(self).index() == old(self).index() + inserted_content@.len(),
            final(self).items() == replaced(
                old(self).items(),
                old(self).index(),
                removed_items as int,
                inserted_content@,
            ),
            final(self).list.parts() == respread(
                old(self).list.parts(),
                old(self).index(),
                removed_items as int,
                inserted_content@.len() as int,
            ),
            final(self).list.spec_height() >= old(self).list.spec_height(),
            N::keeps_track() ==> final(self).list.tells(old(self).notify.told(), final(self).notify.told()),
            N::keeps_track() ==> told_in_order(
                final(self).notify.told().skip(old(self).notify.told().len() as int),
                inserted_content@,
            ),
            *final(final(self).list) == *final(old(self).list),
            *final(final(self).notify) == *final(old(self).notify),
    {
        let ghost pre = *self.list;
        let ghost cur = self.cursor;
        let ghost told = self.notify.told();
        proof {
            self.list.lemma_unfold();
            crate::model::lemma_flatten_userlen(self.list.contents());
            crate::model::lemma_flatten_len(self.list.contents());
        }
        let ghost x = inserted_content@;
        let sent = self.list.replace_at_iter(&mut self.cursor, removed_items, inserted_content, self.notify);
        proof {
            self.list.lemma_wrote_tells(&pre, &cur, &self.cursor, told, self.notify.told(), sent.0@, sent.1@);
            pre.lemma_unfold();
            self.list.lemma_unfold();
            let i0 = pre.cursor_index(&cur);
            pre.lemma_cursor_lands(&cur);
            assert(pre@.take(i0).len() == i0);
            assert(self.list@.subrange(i0, i0 + x.len()) =~= x);
        }
    }

    /// The item before the edit, if the edit is not at the start of the
    /// list.
    pub fn prev_item(&self) -> (item: Option<&Item>)
        requires
            self.wf(),
            self.anchored(),
        ensures
            item == if self.index() > 0 {
                Some(&self.items()[self.index() - 1])
            } else {
                None
            },
    {
        self.cursor.prev_item(&*self.list)
    }

    /// The item that the edit is at or in, if the edit is not at the end of
    /// the list.
    pub fn current_item(&self) -> (item: Option<&Item>)
        requires
            self.wf(),
        ensures
            item == if self.index() < self.items().len() {
                Some(&self.items()[self.index()])
            } else {
                None
            },
    {
        self.cursor.current_item(&*self.list)
    }

    /// Moves the edit over the item it is at.
    pub fn advance_item(&mut self)
        requires
            old(self).wf(),
            old(self).index() < old(self).items().len(),
            old(self).offset() == 0 || old(self).inside(),
            old(self).position() + old(self).items()[old(self).index()].usersize() <= usize::MAX,
        ensures
            final(self).wf(),
            final(self).anchored(),
            final(self).offset() == old(self).offset(),
            final(self).index() == old(self).index() + 1,
            final(self).items() == old(self).items(),
            *final(self).list == *old(self).list,
            final(self).notify.told() == old(self).notify.told(),
            *final(final(self).list) == *final(old(self).list),
            *final(final(self).notify) == *final(old(self).notify),
    {
        let height = self.list.nodes[0].height;
        self.cursor.advance_item(&*self.list, height);
    }

    /// The user position of the edit.
    pub fn user_position(&self) -> (userpos: usize)
        requires
            self.wf(),
        ensures
            userpos == self.position(),
    {
        proof {
            self.lemma_position();
        }
        self.cursor.userpos
    }
}

impl<Item: ListItem, N: NotifyTarget<Item>> SkipList<Item, N> {
    /// Cuts the item that the cursor stands in in two where the cursor
    /// stands, puts the first half in its place, and hands back the second.
    /// The cursor ends up behind the first half.
    pub(crate) fn cut_item(&mut self, cursor: &mut Cursor, offset: usize, notify: &mut N) -> (r: (
        Item,
        Ghost<(int, int)>,
    ))
        requires
            old(self).inv(),
            old(self).cursor_ok(old(cursor)),
            offset == old(self).residual(old(cursor)),
            offset > 0,
            Item::can_split(),
            old(self).cursor_index(old(cursor)) < old(self)@.len(),
            offset < old(self)@[old(self).cursor_index(old(cursor))].usersize(),
        ensures
            final(self).inv(),
            final(self).cursor_exact(final(cursor)),
            final(self).cursor_index(final(cursor)) == old(self).cursor_index(old(cursor)) + 1,
            r.0 == old(self)@[old(self).cursor_index(old(cursor))].split_spec(offset as nat).1,
            final(self)@ == old(self)@.take(old(self).cursor_index(old(cursor))) + seq![
                old(self)@[old(self).cursor_index(old(cursor))].split_spec(offset as nat).0,
            ] + old(self)@.skip(old(self).cursor_index(old(cursor)) + 1),
            userlen(final(self)@) + r.0.usersize() == userlen(old(self)@),
            final(self).parts() == old(self).parts(),
            final(self).wrote(
                old(self),
                old(cursor),
                final(cursor),
                old(notify).told(),
                final(notify).told(),
                seq![r.1@],
                false,
            ),
            N::keeps_track() ==> final(notify).told().len() == old(notify).told().len() + 1
                && final(notify).told()[old(notify).told().len() as int].0 == seq![
                old(self)@[old(self).cursor_index(old(cursor))].split_spec(offset as nat).0,
            ],
    {
        let ghost pre = *self;
        let ghost s0 = self@;
        let ghost i0 = self.cursor_index(cursor);
        let ghost cur0 = *cursor;
        let ghost told0 = notify.told();
        proof {
            self.lemma_cursor_lands(cursor);
            self.lemma_unfold();
            self.lemma_cursor_skips(cursor);
            crate::model::lemma_flatten_userlen(self.contents());
            crate::item::lemma_userlen_take_step(s0, i0);
            crate::item::lemma_userlen_take_le(s0, i0 + 1);
        }
        let height = self.nodes[0].height;
        let halves = cursor.current_item(&*self).unwrap().split_item(offset);
        let start = halves.0;
        let end = halves.1;
        cursor.move_to_item_start(height, offset);
        let ghost cur1 = *cursor;
        proof {
            self.lemma_cursor_moved_back(&cur0, cursor);
            crate::item::lemma_userlen_split(s0, i0);
            crate::item::lemma_userlen_split(s0, i0 + 1);
            crate::item::lemma_userlen_subrange(s0, i0, i0 + 1);
            assert(s0.subrange(i0, i0 + 1) =~= seq![s0[i0]]);
            crate::item::lemma_userlen_one(s0[i0]);
            crate::item::lemma_userlen_one(start);
            crate::item::lemma_userlen_one(end);
        }
        let mark = self.replace_item(cursor, start, notify);
        proof {
            self.lemma_unfold();
            pre.lemma_unfold();
            if N::keeps_track() {
                let b = told0.len() as int;
                let note = notify.told()[b];
                let notes = notify.told().subrange(b, b + 1);
                assert(slices(notes) =~= seq![note.0]);
                crate::model::lemma_flatten_one(note.0);
                assert(s0.take(i0).len() == i0);
                assert(self@.subrange(i0, i0 + 1) =~= seq![start]);
            }
            crate::model::lemma_flatten_userlen(self.contents());
            crate::item::lemma_userlen_concat(s0.take(i0), seq![start]);
            crate::item::lemma_userlen_concat(s0.take(i0) + seq![start], s0.skip(i0 + 1));
        }
        (end, mark)
    }

    /// Inserts `contents` at the cursor, and `last` behind them.
    #[verifier::rlimit(20)]
    pub(crate) fn insert_two(&mut self, cursor: &mut Cursor, contents: Vec<Item>, last: Item, notify: &mut N)
        requires
            old(self).inv(),
            old(self).cursor_exact(old(cursor)),
            old(self).num_usercount + userlen(contents@) + last.usersize() <= usize::MAX,
            old(self).num_items + contents@.len() + 1 <= usize::MAX,
        ensures
            final(self).inv(),
            final(self).cursor_exact(final(cursor)),
            final(self).cursor_index(final(cursor)) == old(self).cursor_index(old(cursor)) + contents@.len() + 1,
            final(self)@ == old(self)@.take(old(self).cursor_index(old(cursor))) + contents@ + seq![last]
                + old(self)@.skip(old(self).cursor_index(old(cursor))),
            final(self).keeps_behind(old(self), old(cursor).pos@, old(cursor).local_index as int),
            final(self).not_back(old(cursor), final(cursor)),
            final(self).parts() == spread(
                spread(old(self).parts(), old(self).cursor_index(old(cursor)), contents@.len() as int),
                old(self).cursor_index(old(cursor)) + contents@.len(),
                1,
            ),
            N::keeps_track() ==> final(self).tells(old(notify).told(), final(notify).told()),
            N::keeps_track() ==> told_in_two(
                final(notify).told().skip(old(notify).told().len() as int),
                contents@,
                seq![last],
            ),
    {
        let ghost pre = *self;
        let ghost cur0 = *cursor;
        let ghost told0 = notify.told();
        let ghost s1 = self@;
        let ghost i1 = self.cursor_index(cursor);
        let ghost x = contents@;
        proof {
            self.lemma_cursor_lands(cursor);
            crate::item::lemma_userlen_one(last);
        }
        let first = self.insert_at_iter(cursor, contents, notify);
        proof {
            self.lemma_wrote_tells(&pre, &cur0, cursor, told0, notify.told(), first.0@, first.1@);
            assert(s1.take(i1).len() == i1);
            assert(self@.subrange(i1, i1 + x.len()) =~= x);
        }
        let ghost mid = *self;
        let ghost cur1 = *cursor;
        let ghost told1 = notify.told();
        let ghost s2 = self@;
        let mut one: Vec<Item> = Vec::new();
        one.push(last);
        proof {
            assert(one@ =~= seq![last]);
            self.lemma_unfold();
            pre.lemma_unfold();
            crate::model::lemma_flatten_len(self.contents());
            crate::model::lemma_flatten_len(pre.contents());
            crate::model::lemma_flatten_userlen(self.contents());
            crate::model::lemma_flatten_userlen(pre.contents());
            assert(s1.take(i1).len() == i1);
            crate::item::lemma_userlen_concat(s1.take(i1), x);
            crate::item::lemma_userlen_concat(s1.take(i1) + x, s1.skip(i1));
            crate::item::lemma_userlen_split(s1, i1);
        }
        let second = self.insert_at_iter(cursor, one, notify);
        proof {
            assert(s1.take(i1).len() == i1);
            assert(s2.take(i1 + x.len()) =~= s1.take(i1) + x);
            assert(s2.skip(i1 + x.len()) =~= s1.skip(i1));
            assert(self@ =~= s1.take(i1) + x + seq![last] + s1.skip(i1));
            self.lemma_keeps_behind_twice(
                &mid,
                &pre,
                cur0.pos@,
                cur0.local_index as int,
                cur1.pos@,
                cur1.local_index as int,
            );
            self.lemma_wrote_twice_tells(
                &mid,
                &pre,
                &cur0,
                &cur1,
                cursor,
                told0,
                told1,
                notify.told(),
                first.0@,
                first.1@,
                second.0@,
                second.1@,
                second.2@,
            );
            self.lemma_wrote_tells(&mid, &cur1, cursor, told1, notify.told(), second.0@, second.1@);
            if N::keeps_track() {
                let told2 = notify.told();
                let news = told2.skip(told0.len() as int);
                let a = told1.len() - told0.len();
                assert(news.take(a) =~= told1.skip(told0.len() as int)) by {
                    assert(told2.take(told1.len() as int) == told1);
                    assert forall|i: int| 0 <= i < a implies news.take(a)[i] == told1.skip(
                        told0.len() as int,
                    )[i] by {
                        assert(told2.take(told1.len() as int)[told0.len() + i] == told2[told0.len() + i]);
                    }
                }
                assert(news.skip(a) =~= told2.skip(told1.len() as int));
                let j = i1 + x.len();
                assert((s1.take(i1) + x).len() == j);
                assert(self@.subrange(j, j + 1) =~= seq![last]);
            }
        }
    }
}

impl<'a, Item: ListItem, N: NotifyTarget<Item>> Edit<'a, Item, N> {
    /// Inserts `contents` at the edit, which stands `offset` user units
    /// into an item: the item is cut in two there and `contents` go between
    /// the halves. With an offset of 0 this is `insert_iter`. The edit moves
    /// on behind what it has written, the second half included.
    pub fn insert_between_iter(&mut self, offset: usize, contents: Vec<Item>)
        requires
            old(self).wf(),
            offset == old(self).offset(),
            offset == 0 ==> old(self).anchored(),
            offset > 0 ==> Item::can_split() && old(self).inside()
                && offset < old(self).items()[old(self).index()].usersize(),
            userlen(old(self).items()) + userlen(contents@) <= usize::MAX,
            old(self).items().len() + contents@.len() + spare(offset as nat) <= usize::MAX,
        ensures
            final(self).wf(),
            final(self).anchored(),
            final(self).offset() == 0,
            offset == 0 ==> final(self).index() == old(self).index() + contents@.len() && final(self).items()
                == inserted(old(self).items(), old(self).index(), contents@),
            offset > 0 ==> final(self).index() == old(self).index() + contents@.len() + 2 && final(self).items()
                == inserted_within(old(self).items(), old(self).index(), offset as nat, contents@),
            final(self).list.parts() == if offset == 0 {
                spread(old(self).list.parts(), old(self).index(), contents@.len() as int)
            } else {
                spread_within(old(self).list.parts(), old(self).index(), contents@.len() as int)
            },
            final(self).list.spec_height() >= old(self).list.spec_height(),
            N::keeps_track() ==> final(self).list.tells(old(self).notify.told(), final(self).notify.told()),
            N::keeps_track() ==> if offset == 0 {
                told_in_order(final(self).notify.told().skip(old(self).notify.told().len() as int), contents@)
            } else {
                let news = final(self).notify.told().skip(old(self).notify.told().len() as int);
                let halves = old(self).items()[old(self).index()].split_spec(offset as nat);
                &&& news.len() >= 1
                &&& news[0].0 == seq![halves.0]
                &&& told_in_two(news.skip(1), contents@, seq![halves.1])
            },
            *final(final(self).list) == *final(old(self).list),
            *final(final(self).notify) == *final(old(self).notify),
    {
        if offset == 0 {
            self.insert_iter(contents);
            return ;
        }
        let ghost pre = *self.list;
        let ghost cur0 = self.cursor;
        let ghost told0 = self.notify.told();
        let ghost s0 = self.items();
        let ghost i0 = self.index();
        let ghost x = contents@;
        proof {
            self.lemma_position();
            self.list.lemma_unfold();
            crate::model::lemma_flatten_userlen(self.list.contents());
            crate::model::lemma_flatten_len(self.list.contents());
        }
        let cut = self.list.cut_item(&mut self.cursor, offset, self.notify);
        let ghost mid = *self.list;
        let ghost cur1 = self.cursor;
        let ghost told1 = self.notify.told();
        let ghost s1 = self.items();
        proof {
            self.list.lemma_unfold();
            crate::model::lemma_flatten_userlen(self.list.contents());
            crate::model::lemma_flatten_len(self.list.contents());
        }
        self.list.insert_two(&mut self.cursor, contents, cut.0, self.notify);
        proof {
            pre.lemma_unfold();
            mid.lemma_unfold();
            self.list.lemma_unfold();
            let halves = s0[i0].split_spec(offset as nat);
            assert(s0.take(i0).len() == i0);
            assert(s1.take(i0 + 1) =~= s0.take(i0) + seq![halves.0]);
            assert(s1.skip(i0 + 1) =~= s0.skip(i0 + 1));
            assert(self.items() =~= inserted_within(s0, i0, offset as nat, x));
            if N::keeps_track() {
                let told3 = self.notify.told();
                assert(told3.take(told0.len() as int) =~= told3.take(told1.len() as int).take(told0.len() as int));
                assert(told3.skip(told0.len() as int).skip(1) =~= told3.skip(told1.len() as int));
                assert(told3.take(told1.len() as int)[told0.len() as int] == told3[told0.len() as int]);
                assert forall|i: int| told0.len() <= i < told3.len() implies self.list.holds(
                    #[trigger] told3[i],
                ) by {
                    if i < told1.len() {
                        let note = told1[told0.len() as int];
                        assert(told3.take(told1.len() as int)[i] == note);
                        self.list.lemma_behind_kept(&mid, &cur1, &self.cursor, note, cut.1@.0, cut.1@.1);
                        assert(self.list.holds_at(note, cut.1@.0, cut.1@.1));
                    }
                }
            }
        }
    }

    /// Inserts one item at the edit, inside the item that the edit stands
    /// in where `offset` is not 0.
    pub fn insert_between(&mut self, offset: usize, item: Item)
        requires
            old(self).wf(),
            offset == old(self).offset(),
            offset == 0 ==> old(self).anchored(),
            offset > 0 ==> Item::can_split() && old(self).inside()
                && offset < old(self).items()[old(self).index()].usersize(),
            userlen(old(self).items()) + item.usersize() <= usize::MAX,
            old(self).items().len() + 1 + spare(offset as nat) <= usize::MAX,
        ensures
            final(self).wf(),
            final(self).anchored(),
            final(self).offset() == 0,
            offset == 0 ==> final(self).index() == old(self).index() + 1 && final(self).items() == inserted(
                old(self).items(),
                old(self).index(),
                seq![item],
            ),
            offset > 0 ==> final(self).index() == old(self).index() + 3 && final(self).items()
                == inserted_within(old(self).items(), old(self).index(), offset as nat, seq![item]),
            final(self).list.parts() == if offset == 0 {
                spread(old(self).list.parts(), old(self).index(), 1)
            } else {
                spread_within(old(self).list.parts(), old(self).index(), 1)
            },
            final(self).list.spec_height() >= old(self).list.spec_height(),
            N::keeps_track() ==> final(self).list.tells(old(self).notify.told(), final(self).notify.told()),
            N::keeps_track() ==> if offset == 0 {
                told_in_order(final(self).notify.told().skip(old(self).notify.told().len() as int), seq![item])
            } else {
                let news = final(self).notify.told().skip(old(self).notify.told().len() as int);
                let halves = old(self).items()[old(self).index()].split_spec(offset as nat);
                &&& news.len() >= 1
                &&& news[0].0 == seq![halves.0]
                &&& told_in_two(news.skip(1), seq![item], seq![halves.1])
            },
            *final(final(self).list) == *final(old(self).list),
            *final(final(self).notify) == *final(old(self).notify),
    {
        let mut one: Vec<Item> = Vec::new();
        one.push(item);
        proof {
            assert(one@ =~= seq![item]);
            crate::item::lemma_userlen_one(item);
        }
        self.insert_between_iter(offset, one);
    }

    /// Inserts copies of `items` at the edit.
    pub fn insert_slice(&mut self, items: &[Item]) where Item: Copy
        requires
            old(self).wf(),
            old(self).anchored(),
            old(self).offset() == 0,
            userlen(old(self).items()) + userlen(items@) <= usize::MAX,
            old(self).items().len() + items@.len() <= usize::MAX,
        ensures
            final(self).wf(),
            final(self).anchored(),
            final(self).offset() == 0,
            final(self).index() == old(self).index() + items@.len(),
            final(self).items() == inserted(old(self).items(), old(self).index(), items@),
            final(self).list.parts() == spread(old(self).list.parts(), old(self).index(), items@.len() as int),
            final(self).list.spec_height() >= old(self).list.spec_height(),
            N::keeps_track() ==> final(self).list.tells(old(self).notify.told(), final(self).notify.told()),
            N::keeps_track() ==> told_in_order(
                final(self).notify.told().skip(old(self).notify.told().len() as int),
                items@,
            ),
            *final(final(self).list) == *final(old(self).list),
            *final(final(self).notify) == *final(old(self).notify),
    {
        self.insert_iter(vstd::slice::slice_to_vec(items));
    }

    /// Lets `modify_fn` change the item before the edit. The edit stays
    /// behind the item, so its user position changes as the item's size
    /// does.
    pub fn modify_prev_item<F: FnOnce(&mut Item)>(&mut self, modify_fn: F)
        requires
            old(self).wf(),
            old(self).anchored(),
            old(self).index() > 0,
            forall|r: &mut Item|
                mut_ref_current(r) == old(self).items()[old(self).index() - 1] ==> call_requires(
                    modify_fn,
                    (r,),
                ),
            forall|r: &mut Item|
                mut_ref_current(r) == old(self).items()[old(self).index() - 1] && call_ensures(
                    modify_fn,
                    (r,),
                    (),
                ) ==> userlen(old(self).items()) + old(self).offset() + mut_ref_future(r).usersize()
                    <= usize::MAX,
        ensures
            final(self).wf(),
            final(self).anchored(),
            final(self).index() == old(self).index(),
            final(self).offset() == old(self).offset(),
            exists|r: &mut Item|
                mut_ref_current(r) == old(self).items()[old(self).index() - 1] && call_ensures(
                    modify_fn,
                    (r,),
                    (),
                ) && final(self).items() == old(self).items().update(old(self).index() - 1, mut_ref_future(r)),
            final(self).list.parts() == old(self).list.parts(),
            final(self).list.spec_height() == old(self).list.spec_height(),
            N::keeps_track() ==> final(self).notify.told().len() == old(self).notify.told().len() + 1
                && final(self).notify.told().last().0 == seq![final(self).items()[final(self).index() - 1]]
                && final(self).list.tells(old(self).notify.told(), final(self).notify.told()),
            *final(final(self).list) == *final(old(self).list),
            *final(final(self).notify) == *final(old(self).notify),
    {
        let ghost told = self.notify.told();
        proof {
            self.lemma_position();
            self.list.lemma_unfold();
            self.list.lemma_here(&self.cursor);
            assert(self.list.parts() == self.list.cnts().skip(1));
            crate::model::lemma_flatten_userlen(self.list.contents());
            crate::item::lemma_userlen_take_le(self.items(), self.index());
        }
        self.list.modify_prev_item(&mut self.cursor, modify_fn, self.notify);
        proof {
            self.list.lemma_told_one(&self.cursor, told, self.notify.told());
            self.list.lemma_unfold();
        }
    }

    /// Lets `modify_fn` change the item that the edit is at or in, and
    /// moves the edit on behind that item.
    pub fn modify_current_item<F: FnOnce(&mut Item)>(&mut self, modify_fn: F)
        requires
            old(self).wf(),
            old(self).index() < old(self).items().len(),
            old(self).offset() == 0 || old(self).inside(),
            forall|r: &mut Item|
                mut_ref_current(r) == old(self).items()[old(self).index()] ==> call_requires(modify_fn, (r,)),
            userlen(old(self).items()) + old(self).offset() <= usize::MAX,
            forall|r: &mut Item|
                mut_ref_current(r) == old(self).items()[old(self).index()] && call_ensures(
                    modify_fn,
                    (r,),
                    (),
                ) ==> userlen(old(self).items()) + old(self).offset() + mut_ref_future(r).usersize()
                    <= usize::MAX,
        ensures
            final(self).wf(),
            final(self).anchored(),
            final(self).index() == old(self).index() + 1,
            final(self).offset() == old(self).offset(),
            exists|r: &mut Item|
                mut_ref_current(r) == old(self).items()[old(self).index()] && call_ensures(
                    modify_fn,
                    (r,),
                    (),
                ) && final(self).items() == old(self).items().update(old(self).index(), mut_ref_future(r)),
            final(self).list.parts() == old(self).list.parts(),
            final(self).list.spec_height() == old(self).list.spec_height(),
            N::keeps_track() ==> final(self).notify.told().len() == old(self).notify.told().len() + 1
                && final(self).notify.told().last().0 == seq![final(self).items()[final(self).index() - 1]]
                && final(self).list.tells(old(self).notify.told(), final(self).notify.told()),
            *final(final(self).list) == *final(old(self).list),
            *final(final(self).notify) == *final(old(self).notify),
    {
        proof {
            self.lemma_position();
            crate::item::lemma_userlen_take_step(self.items(), self.index());
            crate::item::lemma_userlen_take_le(self.items(), self.index() + 1);
        }
        self.advance_item();
        self.modify_prev_item(modify_fn);
    }

    /// Puts `replacement` in place of the item before the edit.
    pub fn replace_prev_item(&mut self, replacement: Item)
        requires
            old(self).wf(),
            old(self).anchored(),
            old(self).index() > 0,
            userlen(old(self).items()) + old(self).offset() + replacement.usersize() <= usize::MAX,
        ensures
            final(self).wf(),
            final(self).anchored(),
            final(self).index() == old(self).index(),
            final(self).offset() == old(self).offset(),
            final(self).items() == old(self).items().update(old(self).index() - 1, replacement),
            final(self).list.parts() == old(self).list.parts(),
            final(self).list.spec_height() == old(self).list.spec_height(),
            N::keeps_track() ==> final(self).notify.told().len() == old(self).notify.told().len() + 1
                && final(self).notify.told().last().0 == seq![final(self).items()[final(self).index() - 1]]
                && final(self).list.tells(old(self).notify.told(), final(self).notify.told()),
            *final(final(self).list) == *final(old(self).list),
            *final(final(self).notify) == *final(old(self).notify),
    {
        let ghost told = self.notify.told();
        proof {
            self.lemma_position();
            self.list.lemma_unfold();
            self.list.lemma_here(&self.cursor);
            assert(self.list.parts() == self.list.cnts().skip(1));
            crate::model::lemma_flatten_userlen(self.list.contents());
            crate::item::lemma_userlen_take_le(self.items(), self.index());
        }
        self.list.set_prev_item(&mut self.cursor, replacement, self.notify);
        proof {
            self.list.lemma_told_one(&self.cursor, told, self.notify.told());
            self.list.lemma_unfold();
        }
    }
}

/// The notes tell the items `written`, one behind the other, and nothing
/// else but for at most one note at the end, which is of items that have
/// moved to another node.
pub open spec fn told_in_order<Item: ListItem>(
    news: Seq<(Seq<Item>, ItemMarker<Item>)>,
    written: Seq<Item>,
) -> bool {
    exists|m: int| 0 <= m <= 1 && m <= news.len() && flatten(slices(#[trigger] news.take(news.len() - m))) == written
}

/// The notes tell the items `first` and then the items `second`, each as
/// `told_in_order` has it.
pub open spec fn told_in_two<Item: ListItem>(
    news: Seq<(Seq<Item>, ItemMarker<Item>)>,
    first: Seq<Item>,
    second: Seq<Item>,
) -> bool {
    exists|a: int|
        0 <= a <= news.len() && told_in_order(#[trigger] news.take(a), first) && told_in_order(news.skip(a), second)
}

/// The notes are what an insertion of `x` into items `s` at user position
/// `target` tells: `x`, where the position falls between two items; else the
/// first half of the item that is cut in a note of its own, then `x`, then
/// the second half.
pub open spec fn told_inserting<Item: ListItem>(
    news: Seq<(Seq<Item>, ItemMarker<Item>)>,
    s: Seq<Item>,
    target: nat,
    x: Seq<Item>,
) -> bool {
    if offset_at(s, target) == 0 {
        told_in_order(news, x)
    } else {
        let halves = s[index_at(s, target)].split_spec(offset_at(s, target));
        &&& news.len() >= 1
        &&& news[0].0 == seq![halves.0]
        &&& told_in_two(news.skip(1), x, seq![halves.1])
    }
}

impl<Item: ListItem, N: NotifyTarget<Item>> SkipList<Item, N> {
    /// The note is true of the list: its marker points at a node of the
    /// list, and its items are items of that node, one behind the other.
    pub closed spec fn holds(&self, note: (Seq<Item>, ItemMarker<Item>)) -> bool {
        exists|k: int, off: int| self.holds_at(note, k, off)
    }

    /// A sink that had been told `before` has been told `after` since: all
    /// that it had been told, and then only what is true of this list.
    pub open spec fn tells(
        &self,
        before: Seq<(Seq<Item>, ItemMarker<Item>)>,
        after: Seq<(Seq<Item>, ItemMarker<Item>)>,
    ) -> bool {
        &&& before.len() <= after.len()
        &&& after.take(before.len() as int) == before
        &&& forall|i: int| before.len() <= i < after.len() ==> self.holds(#[trigger] after[i])
    }

    /// What a note that is true of the list says in terms of its marker.
    pub proof fn lemma_holds(&self, note: (Seq<Item>, ItemMarker<Item>))
        requires
            self.wf(),
            self.holds(note),
        ensures
            self.marks(note.1),
            exists|a: int|
                self.marked_start(note.1) <= a && a + note.0.len() <= self.marked_start(note.1)
                    + self.marked_len(note.1) && a + note.0.len() <= self@.len() && #[trigger] self@.subrange(
                    a,
                    a + note.0.len(),
                ) == note.0,
    {
        self.lemma_unfold();
        let (k, off) = choose|k: int, off: int| self.holds_at(note, k, off);
        assert(self.holds_at(note, k, off));
        self.lemma_marks_unfold(note.1);
        assert(self.order@.contains(note.1.ptr));
        self.lemma_marks(note.1);
        assert(self.pos_of(note.1.ptr) == k) by {
            if self.pos_of(note.1.ptr) != k {
                assert(self.order@[self.pos_of(note.1.ptr)] != self.order@[k]);
            }
        }
        self.lemma_step(k);
        crate::model::lemma_flatten_index(self.contents(), k, off);
        crate::model::lemma_flatten_index(self.contents(), k, off + note.0.len());
        let a = self.first_item(k) + off;
        let its = self.contents()[k];
        assert(self@.subrange(a, a + note.0.len()) =~= its.subrange(off, off + note.0.len())) by {
            assert(self@.take(a + note.0.len()) =~= crate::model::flatten(self.contents().take(k)) + its.take(
                off + note.0.len(),
            ));
            assert(crate::model::flatten(self.contents().take(k)).len() == self.first_item(k)) by {
                crate::model::lemma_flatten_take_len(self.contents(), k);
            }
        }
    }

    /// One note told of the item before the cursor is true of the list.
    pub(crate) proof fn lemma_told_one(
        &self,
        cur: &Cursor,
        before: Seq<(Seq<Item>, ItemMarker<Item>)>,
        after: Seq<(Seq<Item>, ItemMarker<Item>)>,
    )
        requires
            self.inv(),
            self.cursor_ok(cur),
            cur.local_index > 0,
            N::keeps_track() ==> after == before.push(self.prev_note(cur)) && self.holds_at(
                self.prev_note(cur),
                cur.pos@,
                cur.local_index - 1,
            ),
        ensures
            N::keeps_track() ==> after.len() == before.len() + 1 && after.last().0 == seq![
                self@[self.cursor_index(cur) - 1],
            ] && self.tells(before, after),
    {
        if N::keeps_track() {
            assert(after.take(before.len() as int) =~= before);
            self.lemma_unfold();
            crate::model::lemma_flatten_index(self.contents(), cur.pos@, cur.local_index - 1);
        }
    }

    /// What was written at a cursor is true of the list afterwards.
    pub(crate) proof fn lemma_wrote_tells(
        &self,
        pre: &Self,
        cur: &Cursor,
        now: &Cursor,
        before: Seq<(Seq<Item>, ItemMarker<Item>)>,
        after: Seq<(Seq<Item>, ItemMarker<Item>)>,
        marks: Seq<(int, int)>,
        moved: bool,
    )
        requires
            self.wrote(pre, cur, now, before, after, marks, moved),
        ensures
            N::keeps_track() ==> self.tells(before, after),
            N::keeps_track() ==> told_in_order(
                after.skip(before.len() as int),
                self@.subrange(pre.cursor_index(cur), self.cursor_index(now)),
            ),
    {
        if N::keeps_track() {
            self.lemma_unfold();
            let news = after.skip(before.len() as int);
            let m = if moved {
                1int
            } else {
                0int
            };
            assert(news.take(news.len() - m) =~= after.subrange(
                before.len() as int,
                (before.len() + marks.len()) as int,
            ));
            assert forall|i: int| before.len() <= i < after.len() implies self.holds(#[trigger] after[i]) by {
                let j = i - before.len();
                if j < marks.len() {
                    assert(self.behind(now, after[before.len() + j], marks[j].0, marks[j].1));
                    assert(self.holds_at(after[i], marks[j].0, marks[j].1));
                } else {
                    assert(self.holds_at(after[i], now.pos@ + 1, 0));
                }
            }
        }
    }

    /// What was written at a cursor in two goes is true of the list
    /// afterwards, also where the first go has moved items to the node behind
    /// the cursor's.
    pub(crate) proof fn lemma_wrote_twice_tells(
        &self,
        mid: &Self,
        pre: &Self,
        cur: &Cursor,
        then: &Cursor,
        now: &Cursor,
        before: Seq<(Seq<Item>, ItemMarker<Item>)>,
        between: Seq<(Seq<Item>, ItemMarker<Item>)>,
        after: Seq<(Seq<Item>, ItemMarker<Item>)>,
        first: Seq<(int, int)>,
        first_moved: bool,
        second: Seq<(int, int)>,
        second_moved: bool,
        next: (int, int),
    )
        requires
            mid.wrote(pre, cur, then, before, between, first, first_moved),
            self.wrote(mid, then, now, between, after, second, second_moved),
            first_moved ==> mid.before_next(then),
            mid.before_next(then) ==> self.holds_at(mid.next_run(then), next.0, next.1),
        ensures
            N::keeps_track() ==> self.tells(before, after),
    {
        if N::keeps_track() {
            assert(after.take(before.len() as int) =~= after.take(between.len() as int).take(before.len() as int));
            assert forall|i: int| before.len() <= i < after.len() implies self.holds(#[trigger] after[i]) by {
                let j = i - before.len();
                if j < first.len() {
                    let note = between[before.len() + j];
                    assert(after.take(between.len() as int)[i] == note);
                    self.lemma_behind_kept(mid, then, now, note, first[j].0, first[j].1);
                    assert(self.holds_at(after[i], first[j].0, first[j].1));
                } else if i < between.len() {
                    let note = between[between.len() - 1];
                    assert(after.take(between.len() as int)[i] == note);
                    assert(mid.holds_at(note, then.pos@ + 1, 0));
                    let run = mid.contents()[then.pos@ + 1];
                    let its = self.node(next.0).items@;
                    assert(its.subrange(next.1, next.1 + note.0.len()) =~= its.subrange(
                        next.1,
                        next.1 + run.len(),
                    ).subrange(0, note.0.len() as int));
                    assert(self.holds_at(after[i], next.0, next.1));
                } else {
                    let m = i - between.len();
                    if m < second.len() {
                        assert(self.behind(now, after[between.len() + m], second[m].0, second[m].1));
                        assert(self.holds_at(after[i], second[m].0, second[m].1));
                    } else {
                        assert(self.holds_at(after[i], now.pos@ + 1, 0));
                    }
                }
            }
        }
    }
}

/// `Box::leak` on a boxed unit: a reference to a unit value that lives as
/// long as asked. A unit has one value and takes no memory, so nothing is
/// claimed and nothing is lost.
#[verifier::external_body]
fn leak_unit<'a>(unit: Box<()>) -> &'a mut () {
    Box::leak(unit)
}

/// The number of items that an insertion at offset `offset` into an item
/// makes besides the ones inserted: the item becomes two halves.
pub open spec fn spare(offset: nat) -> nat {
    if offset > 0 {
        1
    } else {
        0
    }
}

/// The smaller of a user position and the user size of a list.
pub open spec fn clamped(userpos: usize, len_user: nat) -> nat {
    if userpos > len_user {
        len_user
    } else {
        userpos as nat
    }
}

/// Edits by user position, made in one call each. This is for a list
/// borrowed for the edit, alone or together with a sink of notifications.
pub trait SimpleApi<'a, Item: 'a + ListItem, N: 'a + NotifyTarget<Item>>: Sized {
    /// The list as it is when the edit begins.
    spec fn list(self) -> SkipList<Item, N>;

    /// An edit at user position `userpos`, and how far into the item there
    /// the position lies.
    fn edit(self, userpos: usize) -> (r: (Edit<'a, Item, N>, usize))
        requires
            self.list().wf(),
            userpos <= userlen(self.list()@),
        ensures
            r.0.wf(),
            *r.0.list == self.list(),
            r.0.position() == userpos,
            r.0.offset() == r.1,
            r.0.index() == index_at(self.list()@, userpos as nat),
            r.1 == offset_at(self.list()@, userpos as nat),
            lands(self.list()@, userpos as nat, r.0.index(), r.1 as nat),
            r.1 == 0 ==> r.0.anchored(),
            r.1 > 0 ==> r.0.inside(),
    ;

    /// An edit at user position `userpos`, which falls between two items.
    fn edit_exact(self, userpos: usize) -> (e: Edit<'a, Item, N>)
        requires
            self.list().wf(),
            userpos <= userlen(self.list()@),
            offset_at(self.list()@, userpos as nat) == 0,
        ensures
            e.wf(),
            *e.list == self.list(),
            e.position() == userpos,
            e.offset() == 0,
            e.anchored(),
            e.index() == index_at(self.list()@, userpos as nat),
            lands(self.list()@, userpos as nat, e.index(), 0),
    ;

    /// Replaces `removed_items` items from user position `start_userpos`
    /// on by `inserted_content`.
    fn replace_at(self, start_userpos: usize, removed_items: usize, inserted_content: Vec<Item>)
        requires
            self.list().wf(),
            start_userpos <= userlen(self.list()@),
            offset_at(self.list()@, start_userpos as nat) == 0,
            index_at(self.list()@, start_userpos as nat) + removed_items <= self.list()@.len(),
            userlen(self.list()@) + userlen(inserted_content@) <= usize::MAX,
            self.list()@.len() + inserted_content@.len() <= usize::MAX,
    ;

    /// Replaces `removed_items` items from user position `start_userpos`
    /// on by copies of `inserted_content`.
    fn replace_at_slice(self, start_userpos: usize, removed_items: usize, inserted_content: &[Item]) where
        Item: Copy,

        requires
            self.list().wf(),
            start_userpos <= userlen(self.list()@),
            offset_at(self.list()@, start_userpos as nat) == 0,
            index_at(self.list()@, start_userpos as nat) + removed_items <= self.list()@.len(),
            userlen(self.list()@) + userlen(inserted_content@) <= usize::MAX,
            self.list()@.len() + inserted_content@.len() <= usize::MAX,
    ;

    /// Lets `modify_fn` change the item at or in which user position
    /// `userpos` lands, and hands it how far into the item that is.
    fn modify_item_after<F: FnOnce(&mut Item, usize)>(self, userpos: usize, modify_fn: F)
        requires
            self.list().wf(),
            userpos <= userlen(self.list()@),
            index_at(self.list()@, userpos as nat) < self.list()@.len(),
            forall|r: &mut Item|
                mut_ref_current(r) == self.list()@[index_at(self.list()@, userpos as nat)] ==> call_requires(
                    modify_fn,
                    (r, offset_at(self.list()@, userpos as nat) as usize),
                ),
            userlen(self.list()@) + offset_at(self.list()@, userpos as nat) <= usize::MAX,
            forall|r: &mut Item|
                mut_ref_current(r) == self.list()@[index_at(self.list()@, userpos as nat)] && call_ensures(
                    modify_fn,
                    (r, offset_at(self.list()@, userpos as nat) as usize),
                    (),
                ) ==> userlen(self.list()@) + offset_at(self.list()@, userpos as nat) + mut_ref_future(
                    r,
                ).usersize() <= usize::MAX,
    ;

    /// Inserts `contents` at user position `userpos`, or at the end of the
    /// list where `userpos` lies behind it. Where the position falls inside
    /// an item, the item is cut in two.
    fn insert_at(self, userpos: usize, contents: Vec<Item>)
        requires
            self.list().wf(),
            offset_at(self.list()@, clamped(userpos, userlen(self.list()@))) > 0 ==> Item::can_split(),
            userlen(self.list()@) + userlen(contents@) <= usize::MAX,
            self.list()@.len() + contents@.len() + spare(
                offset_at(self.list()@, clamped(userpos, userlen(self.list()@))),
            ) <= usize::MAX,
    ;

    /// Inserts copies of `contents` at user position `userpos`.
    fn insert_at_slice(self, userpos: usize, contents: &[Item]) where Item: Copy
        requires
            self.list().wf(),
            offset_at(self.list()@, clamped(userpos, userlen(self.list()@))) > 0 ==> Item::can_split(),
            userlen(self.list()@) + userlen(contents@) <= usize::MAX,
            self.list()@.len() + contents@.len() + spare(
                offset_at(self.list()@, clamped(userpos, userlen(self.list()@))),
            ) <= usize::MAX,
    ;

    /// Deletes `num_items` items from user position `userpos` on.
    fn del_at(self, userpos: usize, num_items: usize)
        requires
            self.list().wf(),
            userpos <= userlen(self.list()@),
            offset_at(self.list()@, userpos as nat) == 0,
            index_at(self.list()@, userpos as nat) + num_items <= self.list()@.len(),
    ;
}

/// The edit at `userpos` in `list`, with `notify` to tell of changes.
pub(crate) fn edit_at<'a, Item: ListItem, N: NotifyTarget<Item>>(
    list: &'a mut SkipList<Item, N>,
    notify: &'a mut N,
    userpos: usize,
) -> (r: (Edit<'a, Item, N>, usize))
    requires
        old(list).wf(),
        userpos <= userlen(old(list)@),
    ensures
        r.0.wf(),
        *r.0.list == *old(list),
        *final(list) == *final(r.0.list),
        *r.0.notify == *old(notify),
        *final(notify) == *final(r.0.notify),
        r.0.position() == userpos,
        r.0.offset() == r.1,
        r.0.index() == index_at(old(list)@, userpos as nat),
        r.1 == offset_at(old(list)@, userpos as nat),
        lands(old(list)@, userpos as nat, r.0.index(), r.1 as nat),
        r.1 == 0 ==> r.0.anchored(),
        r.1 > 0 ==> r.0.inside(),
{
    proof {
        list.lemma_unfold();
        crate::model::lemma_flatten_userlen(list.contents());
    }
    let found = list.cursor_at_userpos(userpos);
    proof {
        lemma_lands_at(list@, userpos as nat, list.cursor_index(&found.0), found.1 as nat);
    }
    (Edit { list, cursor: found.0, notify }, found.1)
}

/// Replaces items of `list` by user position, with `notify` told.
pub(crate) fn replace_in<Item: ListItem, N: NotifyTarget<Item>>(
    list: &mut SkipList<Item, N>,
    notify: &mut N,
    start_userpos: usize,
    removed_items: usize,
    inserted_content: Vec<Item>,
)
    requires
        old(list).wf(),
        start_userpos <= userlen(old(list)@),
        offset_at(old(list)@, start_userpos as nat) == 0,
        index_at(old(list)@, start_userpos as nat) + removed_items <= old(list)@.len(),
        userlen(old(list)@) + userlen(inserted_content@) <= usize::MAX,
        old(list)@.len() + inserted_content@.len() <= usize::MAX,
    ensures
        final(list).wf(),
        final(list)@ == replaced(
            old(list)@,
            index_at(old(list)@, start_userpos as nat),
            removed_items as int,
            inserted_content@,
        ),
        final(list).parts() == respread(
            old(list).parts(),
            index_at(old(list)@, start_userpos as nat),
            removed_items as int,
            inserted_content@.len() as int,
        ),
        final(list).spec_height() >= old(list).spec_height(),
        N::keeps_track() ==> final(list).tells(old(notify).told(), final(notify).told()),
        N::keeps_track() ==> told_in_order(final(notify).told().skip(old(notify).told().len() as int), inserted_content@),
{
    let mut edit = edit_at(list, notify, start_userpos).0;
    edit.replace(removed_items, inserted_content);
    proof {
        edit.list.lemma_unfold();
    }
}

/// Deletes items of `list` by user position.
pub(crate) fn del_in<Item: ListItem, N: NotifyTarget<Item>>(
    list: &mut SkipList<Item, N>,
    notify: &mut N,
    userpos: usize,
    num_items: usize,
)
    requires
        old(list).wf(),
        userpos <= userlen(old(list)@),
        offset_at(old(list)@, userpos as nat) == 0,
        index_at(old(list)@, userpos as nat) + num_items <= old(list)@.len(),
    ensures
        final(list).wf(),
        final(list)@ == deleted(old(list)@, index_at(old(list)@, userpos as nat), num_items as int),
        final(list).parts() == trimmed(old(list).parts(), index_at(old(list)@, userpos as nat), num_items as int),
        final(list).spec_height() == old(list).spec_height(),
        final(notify).told() == old(notify).told(),
{
    let mut edit = edit_at(list, notify, userpos).0;
    edit.del(num_items);
    proof {
        edit.list.lemma_unfold();
    }
}

/// Inserts items into `list` by user position, with `notify` told.
pub(crate) fn insert_in<Item: ListItem, N: NotifyTarget<Item>>(
    list: &mut SkipList<Item, N>,
    notify: &mut N,
    userpos: usize,
    contents: Vec<Item>,
)
    requires
        old(list).wf(),
        offset_at(old(list)@, clamped(userpos, userlen(old(list)@))) > 0 ==> Item::can_split(),
        userlen(old(list)@) + userlen(contents@) <= usize::MAX,
        old(list)@.len() + contents@.len() + spare(offset_at(old(list)@, clamped(userpos, userlen(old(list)@))))
            <= usize::MAX,
    ensures
        final(list).wf(),
        final(list)@ == inserted_at(old(list)@, clamped(userpos, userlen(old(list)@)), contents@),
        final(list).parts() == spread_for(
            old(list).parts(),
            old(list)@,
            clamped(userpos, userlen(old(list)@)),
            contents@.len() as int,
        ),
        final(list).spec_height() >= old(list).spec_height(),
        N::keeps_track() ==> final(list).tells(old(notify).told(), final(notify).told()),
        N::keeps_track() ==> told_inserting(
            final(notify).told().skip(old(notify).told().len() as int),
            old(list)@,
            clamped(userpos, userlen(old(list)@)),
            contents@,
        ),
{
    let len_user = list.len_user();
    let target = if userpos > len_user {
        len_user
    } else {
        userpos
    };
    let found = edit_at(list, notify, target);
    let mut edit = found.0;
    edit.insert_between_iter(found.1, contents);
    proof {
        edit.list.lemma_unfold();
    }
}

/// Lets `modify_fn` change an item of `list` by user position, with `notify`
/// told.
pub(crate) fn modify_in<Item: ListItem, N: NotifyTarget<Item>, F: FnOnce(&mut Item, usize)>(
    list: &mut SkipList<Item, N>,
    notify: &mut N,
    userpos: usize,
    modify_fn: F,
)
    requires
        old(list).wf(),
        userpos <= userlen(old(list)@),
        index_at(old(list)@, userpos as nat) < old(list)@.len(),
        forall|r: &mut Item|
            mut_ref_current(r) == old(list)@[index_at(old(list)@, userpos as nat)] ==> call_requires(
                modify_fn,
                (r, offset_at(old(list)@, userpos as nat) as usize),
            ),
        userlen(old(list)@) + offset_at(old(list)@, userpos as nat) <= usize::MAX,
        forall|r: &mut Item|
            mut_ref_current(r) == old(list)@[index_at(old(list)@, userpos as nat)] && call_ensures(
                modify_fn,
                (r, offset_at(old(list)@, userpos as nat) as usize),
                (),
            ) ==> userlen(old(list)@) + offset_at(old(list)@, userpos as nat) + mut_ref_future(r).usersize()
                <= usize::MAX,
    ensures
        final(list).wf(),
        exists|r: &mut Item|
            mut_ref_current(r) == old(list)@[index_at(old(list)@, userpos as nat)] && call_ensures(
                modify_fn,
                (r, offset_at(old(list)@, userpos as nat) as usize),
                (),
            ) && final(list)@ == old(list)@.update(index_at(old(list)@, userpos as nat), mut_ref_future(r)),
        final(list).parts() == old(list).parts(),
        final(list).spec_height() == old(list).spec_height(),
        N::keeps_track() ==> final(notify).told().len() == old(notify).told().len() + 1
            && final(notify).told().last().0 == seq![final(list)@[index_at(old(list)@, userpos as nat)]]
            && final(list).tells(
            old(notify).told(),
            final(notify).told(),
        ),
{
    let found = edit_at(list, notify, userpos);
    let mut edit = found.0;
    let offset = found.1;
    proof {
        edit.lemma_position();
        edit.list.lemma_unfold();
        crate::model::lemma_flatten_userlen(edit.list.contents());
        crate::item::lemma_userlen_take_step(edit.items(), edit.index());
        crate::item::lemma_userlen_take_le(edit.items(), edit.index() + 1);
    }
    edit.advance_item();
    proof {
        edit.lemma_position();
        edit.list.lemma_unfold();
        edit.list.lemma_here(&edit.cursor);
    }
    let ghost told = edit.notify.told();
    proof {
        assert(edit.list.parts() == edit.list.cnts().skip(1));
        assert(edit.list.spec_height() == edit.list.head_height());
    }
    edit.list.modify_prev_item_at(&mut edit.cursor, modify_fn, offset, edit.notify);
    proof {
        edit.list.lemma_unfold();
        edit.list.lemma_told_one(&edit.cursor, told, edit.notify.told());
    }
}

impl<'a, Item: 'a + ListItem> SimpleApi<'a, Item, ()> for &'a mut SkipList<Item> {
    open spec fn list(self) -> SkipList<Item, ()> {
        *self
    }

    fn edit(self, userpos: usize) -> (r: (Edit<'a, Item, ()>, usize))
        ensures
            *final(self) == *final(r.0.list),
    {
        edit_at(self, leak_unit(Box::new(())), userpos)
    }

    fn edit_exact(self, userpos: usize) -> (e: Edit<'a, Item, ()>)
        ensures
            *final(self) == *final(e.list),
    {
        edit_at(self, leak_unit(Box::new(())), userpos).0
    }

    fn replace_at(self, start_userpos: usize, removed_items: usize, inserted_content: Vec<Item>)
        ensures
            final(self).wf(),
            final(self)@ == replaced(
                old(self)@,
                index_at(old(self)@, start_userpos as nat),
                removed_items as int,
                inserted_content@,
            ),
            final(self).parts() == respread(
                old(self).parts(),
                index_at(old(self)@, start_userpos as nat),
                removed_items as int,
                inserted_content@.len() as int,
            ),
            final(self).spec_height() >= old(self).spec_height(),
    {
        let mut unit = ();
        replace_in(self, &mut unit, start_userpos, removed_items, inserted_content);
    }

    fn replace_at_slice(self, start_userpos: usize, removed_items: usize, inserted_content: &[Item]) where
        Item: Copy,

        ensures
            final(self).wf(),
            final(self)@ == replaced(
                old(self)@,
                index_at(old(self)@, start_userpos as nat),
                removed_items as int,
                inserted_content@,
            ),
            final(self).parts() == respread(
                old(self).parts(),
                index_at(old(self)@, start_userpos as nat),
                removed_items as int,
                inserted_content@.len() as int,
            ),
            final(self).spec_height() >= old(self).spec_height(),
    {
        let mut unit = ();
        replace_in(self, &mut unit, start_userpos, removed_items, vstd::slice::slice_to_vec(inserted_content));
    }

    fn modify_item_after<F: FnOnce(&mut Item, usize)>(self, userpos: usize, modify_fn: F)
        ensures
            final(self).wf(),
            exists|r: &mut Item|
                mut_ref_current(r) == old(self)@[index_at(old(self)@, userpos as nat)] && call_ensures(
                    modify_fn,
                    (r, offset_at(old(self)@, userpos as nat) as usize),
                    (),
                ) && final(self)@ == old(self)@.update(index_at(old(self)@, userpos as nat), mut_ref_future(r)),
            final(self).parts() == old(self).parts(),
            final(self).spec_height() == old(self).spec_height(),
    {
        let mut unit = ();
        modify_in(self, &mut unit, userpos, modify_fn);
    }

    fn insert_at(self, userpos: usize, contents: Vec<Item>)
        ensures
            final(self).wf(),
            final(self)@ == inserted_at(old(self)@, clamped(userpos, userlen(old(self)@)), contents@),
            final(self).parts() == spread_for(
                old(self).parts(),
                old(self)@,
                clamped(userpos, userlen(old(self)@)),
                contents@.len() as int,
            ),
            final(self).spec_height() >= old(self).spec_height(),
    {
        let mut unit = ();
        insert_in(self, &mut unit, userpos, contents);
    }

    fn insert_at_slice(self, userpos: usize, contents: &[Item]) where Item: Copy
        ensures
            final(self).wf(),
            final(self)@ == inserted_at(old(self)@, clamped(userpos, userlen(old(self)@)), contents@),
            final(self).parts() == spread_for(
                old(self).parts(),
                old(self)@,
                clamped(userpos, userlen(old(self)@)),
                contents@.len() as int,
            ),
            final(self).spec_height() >= old(self).spec_height(),
    {
        let mut unit = ();
        insert_in(self, &mut unit, userpos, vstd::slice::slice_to_vec(contents));
    }

    fn del_at(self, userpos: usize, num_items: usize)
        ensures
            final(self).wf(),
            final(self)@ == deleted(old(self)@, index_at(old(self)@, userpos as nat), num_items as int),
            final(self).parts() == trimmed(
                old(self).parts(),
                index_at(old(self)@, userpos as nat),
                num_items as int,
            ),
            final(self).spec_height() == old(self).spec_height(),
    {
        let mut unit = ();
        del_in(self, &mut unit, userpos, num_items);
    }
}

impl<'a, Item: 'a + ListItem, N: 'a + NotifyTarget<Item>> SimpleApi<'a, Item, N> for (
    &'a mut SkipList<Item, N>,
    &'a mut N,
) {
    open spec fn list(self) -> SkipList<Item, N> {
        *self.0
    }

    fn edit(self, userpos: usize) -> (r: (Edit<'a, Item, N>, usize))
        ensures
            *final(self.0) == *final(r.0.list),
            *final(self.1) == *final(r.0.notify),
    {
        edit_at(self.0, self.1, userpos)
    }

    fn edit_exact(self, userpos: usize) -> (e: Edit<'a, Item, N>)
        ensures
            *final(self.0) == *final(e.list),
            *final(self.1) == *final(e.notify),
    {
        edit_at(self.0, self.1, userpos).0
    }

    fn replace_at(self, start_userpos: usize, removed_items: usize, inserted_content: Vec<Item>)
        ensures
            final(self.0).wf(),
            final(self.0)@ == replaced(
                old(self.0)@,
                index_at(old(self.0)@, start_userpos as nat),
                removed_items as int,
                inserted_content@,
            ),
            final(self.0).parts() == respread(
                old(self.0).parts(),
                index_at(old(self.0)@, start_userpos as nat),
                removed_items as int,
                inserted_content@.len() as int,
            ),
            final(self.0).spec_height() >= old(self.0).spec_height(),
            N::keeps_track() ==> final(self.0).tells(old(self.1).told(), final(self.1).told()),
            N::keeps_track() ==> told_in_order(
                final(self.1).told().skip(old(self.1).told().len() as int),
                inserted_content@,
            ),
    {
        replace_in(self.0, self.1, start_userpos, removed_items, inserted_content);
    }

    fn replace_at_slice(self, start_userpos: usize, removed_items: usize, inserted_content: &[Item]) where
        Item: Copy,

        ensures
            final(self.0).wf(),
            final(self.0)@ == replaced(
                old(self.0)@,
                index_at(old(self.0)@, start_userpos as nat),
                removed_items as int,
                inserted_content@,
            ),
            final(self.0).parts() == respread(
                old(self.0).parts(),
                index_at(old(self.0)@, start_userpos as nat),
                removed_items as int,
                inserted_content@.len() as int,
            ),
            final(self.0).spec_height() >= old(self.0).spec_height(),
            N::keeps_track() ==> final(self.0).tells(old(self.1).told(), final(self.1).told()),
            N::keeps_track() ==> told_in_order(
                final(self.1).told().skip(old(self.1).told().len() as int),
                inserted_content@,
            ),
    {
        replace_in(self.0, self.1, start_userpos, removed_items, vstd::slice::slice_to_vec(inserted_content));
    }

    fn modify_item_after<F: FnOnce(&mut Item, usize)>(self, userpos: usize, modify_fn: F)
        ensures
            final(self.0).wf(),
            exists|r: &mut Item|
                mut_ref_current(r) == old(self.0)@[index_at(old(self.0)@, userpos as nat)] && call_ensures(
                    modify_fn,
                    (r, offset_at(old(self.0)@, userpos as nat) as usize),
                    (),
                ) && final(self.0)@ == old(self.0)@.update(
                    index_at(old(self.0)@, userpos as nat),
                    mut_ref_future(r),
                ),
            final(self.0).parts() == old(self.0).parts(),
            final(self.0).spec_height() == old(self.0).spec_height(),
            N::keeps_track() ==> final(self.1).told().len() == old(self.1).told().len() + 1
                && final(self.1).told().last().0 == seq![final(self.0)@[index_at(old(self.0)@, userpos as nat)]]
                && final(self.0).tells(old(self.1).told(), final(self.1).told()),
    {
        modify_in(self.0, self.1, userpos, modify_fn);
    }

    fn insert_at(self, userpos: usize, contents: Vec<Item>)
        ensures
            final(self.0).wf(),
            final(self.0)@ == inserted_at(old(self.0)@, clamped(userpos, userlen(old(self.0)@)), contents@),
            final(self.0).parts() == spread_for(
                old(self.0).parts(),
                old(self.0)@,
                clamped(userpos, userlen(old(self.0)@)),
                contents@.len() as int,
            ),
            final(self.0).spec_height() >= old(self.0).spec_height(),
            N::keeps_track() ==> final(self.0).tells(old(self.1).told(), final(self.1).told()),
            N::keeps_track() ==> told_inserting(
                final(self.1).told().skip(old(self.1).told().len() as int),
                old(self.0)@,
                clamped(userpos, userlen(old(self.0)@)),
                contents@,
            ),
    {
        insert_in(self.0, self.1, userpos, contents);
    }

    fn insert_at_slice(self, userpos: usize, contents: &[Item]) where Item: Copy
        ensures
            final(self.0).wf(),
            final(self.0)@ == inserted_at(old(self.0)@, clamped(userpos, userlen(old(self.0)@)), contents@),
            final(self.0).parts() == spread_for(
                old(self.0).parts(),
                old(self.0)@,
                clamped(userpos, userlen(old(self.0)@)),
                contents@.len() as int,
            ),
            final(self.0).spec_height() >= old(self.0).spec_height(),
            N::keeps_track() ==> final(self.0).tells(old(self.1).told(), final(self.1).told()),
            N::keeps_track() ==> told_inserting(
                final(self.1).told().skip(old(self.1).told().len() as int),
                old(self.0)@,
                clamped(userpos, userlen(old(self.0)@)),
                contents@,
            ),
    {
        insert_in(self.0, self.1, userpos, vstd::slice::slice_to_vec(contents));
    }

    fn del_at(self, userpos: usize, num_items: usize)
        ensures
            final(self.0).wf(),
            final(self.0)@ == deleted(old(self.0)@, index_at(old(self.0)@, userpos as nat), num_items as int),
            final(self.0).parts() == trimmed(
                old(self.0).parts(),
                index_at(old(self.0)@, userpos as nat),
                num_items as int,
            ),
            final(self.0).spec_height() == old(self.0).spec_height(),
            final(self.1).told() == old(self.1).told(),
    {
        del_in(self.0, self.1, userpos, num_items);
    }
}

impl<Item: ListItem> SkipList<Item> {
    /// A list of the given items.
    pub fn new_from_iter(iter: Vec<Item>) -> (list: Self)
        requires
            userlen(iter@) <= usize::MAX,
        ensures
            list.wf(),
            list@ == iter@,
            list.parts() == chunks(iter@.len() as int),
    {
        let mut list = Self::new();
        let count = iter.len();
        proof {
            crate::item::lemma_userlen_empty::<Item>();
            assert(list@.take(0) =~= Seq::<Item>::empty());
            lemma_lands_at(list@, 0, 0, 0);
            assert(inserted(list@, 0, iter@) =~= iter@);
        }
        (&mut list).insert_at(0, iter);
        list
    }

    /// A list of copies of the given items.
    pub fn new_from_slice(s: &[Item]) -> (list: Self) where Item: Copy
        requires
            userlen(s@) <= usize::MAX,
        ensures
            list.wf(),
            list@ == s@,
            list.parts() == chunks(s@.len() as int),
    {
        Self::new_from_iter(vstd::slice::slice_to_vec(s))
    }
}

impl<Item: ListItem, N: NotifyTarget<Item>> SkipList<Item, N> {
    /// The list together with a sink that is told of the edits made to it.
    pub fn notify<'a>(&'a mut self, notify: &'a mut N) -> (both: (&'a mut Self, &'a mut N))
        ensures
            *both.0 == *old(self),
            *both.1 == *old(notify),
            *final(self) == *final(both.0),
            *final(notify) == *final(both.1),
    {
        (self, notify)
    }

    /// A list of the given items, of which `notify` is told.
    pub fn new_from_iter_n(notify: &mut N, iter: Vec<Item>) -> (list: Self)
        requires
            userlen(iter@) <= usize::MAX,
        ensures
            list.wf(),
            list@ == iter@,
            list.parts() == chunks(iter@.len() as int),
            N::keeps_track() ==> list.tells(old(notify).told(), final(notify).told()),
            N::keeps_track() ==> told_in_order(final(notify).told().skip(old(notify).told().len() as int), iter@),
    {
        let mut list = Self::new();
        let count = iter.len();
        proof {
            crate::item::lemma_userlen_empty::<Item>();
            assert(list@.take(0) =~= Seq::<Item>::empty());
            lemma_lands_at(list@, 0, 0, 0);
            assert(inserted(list@, 0, iter@) =~= iter@);
        }
        insert_in(&mut list, notify, 0, iter);
        list
    }

    /// A list of copies of the given items, of which `notify` is told.
    pub fn new_from_slice_n(notify: &mut N, s: &[Item]) -> (list: Self) where Item: Copy
        requires
            userlen(s@) <= usize::MAX,
        ensures
            list.wf(),
            list@ == s@,
            list.parts() == chunks(s@.len() as int),
            N::keeps_track() ==> list.tells(old(notify).told(), final(notify).told()),
            N::keeps_track() ==> told_in_order(final(notify).told().skip(old(notify).told().len() as int), s@),
    {
        Self::new_from_iter_n(notify, vstd::slice::slice_to_vec(s))
    }

    /// An edit at user position `userpos`, and how far into the item there
    /// the position lies.
    pub fn edit_n<'a>(&'a mut self, notify: &'a mut N, userpos: usize) -> (r: (Edit<'a, Item, N>, usize))
        requires
            old(self).wf(),
            userpos <= userlen(old(self)@),
        ensures
            r.0.wf(),
            *r.0.list == *old(self),
            *final(self) == *final(r.0.list),
            *final(notify) == *final(r.0.notify),
            r.0.position() == userpos,
            r.0.offset() == r.1,
            r.0.index() == index_at(old(self)@, userpos as nat),
            r.1 == offset_at(old(self)@, userpos as nat),
            lands(old(self)@, userpos as nat, r.0.index(), r.1 as nat),
            r.1 == 0 ==> r.0.anchored(),
            r.1 > 0 ==> r.0.inside(),
    {
        edit_at(self, notify, userpos)
    }

    /// An edit at user position `userpos`, which falls between two items.
    pub fn edit_between_n<'a>(&'a mut self, notify: &'a mut N, userpos: usize) -> (e: Edit<'a, Item, N>)
        requires
            old(self).wf(),
            userpos <= userlen(old(self)@),
            offset_at(old(self)@, userpos as nat) == 0,
        ensures
            e.wf(),
            *e.list == *old(self),
            *final(self) == *final(e.list),
            *final(notify) == *final(e.notify),
            e.position() == userpos,
            e.offset() == 0,
            e.anchored(),
            e.index() == index_at(old(self)@, userpos as nat),
            lands(old(self)@, userpos as nat, e.index(), 0),
    {
        edit_at(self, notify, userpos).0
    }

    /// The index in the list of the first item of the node that `marker`
    /// points at.
    pub closed spec fn marked_start(&self, marker: ItemMarker<Item>) -> int {
        self.first_item(self.pos_of(marker.ptr)) as int
    }

    /// The number of items in the node that `marker` points at.
    pub closed spec fn marked_len(&self, marker: ItemMarker<Item>) -> int {
        self.marked_items(marker).len() as int
    }

    /// The items of a marked node are items of the list.
    pub proof fn lemma_marked(&self, marker: ItemMarker<Item>)
        requires
            self.wf(),
            self.marks(marker),
        ensures
            0 <= self.marked_start(marker),
            0 <= self.marked_len(marker),
            self.marked_start(marker) + self.marked_len(marker) <= self@.len(),
    {
        self.lemma_unfold();
        self.lemma_marks(marker);
        let k = self.pos_of(marker.ptr);
        self.lemma_step(k);
    }

    /// An edit at the first item in the marker's node for which `predicate`
    /// gives an offset, together with that offset; nothing if it gives none
    /// for any item of the node.
    pub fn edit_at_marker<'a, P: Fn(&Item) -> Option<usize>>(
        &'a mut self,
        notify: &'a mut N,
        marker: ItemMarker<Item>,
        predicate: P,
    ) -> (found: Option<(Edit<'a, Item, N>, usize)>)
        requires
            old(self).wf(),
            old(self).marks(marker),
            forall|item: &Item| call_requires(predicate, (item,)),
        ensures
            match found {
                Some((edit, item_offset)) => {
                    &&& edit.wf()
                    &&& *edit.list == *old(self)
                    &&& *final(self) == *final(edit.list)
                    &&& *final(notify) == *final(edit.notify)
                    &&& edit.offset() == 0
                    &&& edit.inside()
                    &&& old(self).marked_start(marker) <= edit.index() < old(self).marked_start(marker)
                        + old(self).marked_len(marker)
                    &&& edit.index() < old(self)@.len()
                    &&& call_ensures(predicate, (&old(self)@[edit.index()],), Some(item_offset))
                    &&& forall|i: int|
                        old(self).marked_start(marker) <= i < edit.index() ==> call_ensures(
                            predicate,
                            (&#[trigger] old(self)@[i],),
                            None,
                        )
                },
                None => {
                    &&& *final(self) == *old(self)
                    &&& *final(notify) == *old(notify)
                    &&& forall|i: int|
                        old(self).marked_start(marker) <= i < old(self).marked_start(marker)
                            + old(self).marked_len(marker)
                            ==> call_ensures(predicate, (&#[trigger] old(self)@[i],), None)
                },
            },
    {
        proof {
            self.lemma_unfold();
            self.lemma_marks(marker);
            let k = self.pos_of(marker.ptr);
            self.lemma_step(k);
            assert forall|j: int| 0 <= j < self.marked_items(marker).len() implies self@[self.first_item(k) + j]
                == #[trigger] self.marked_items(marker)[j] by {
                crate::model::lemma_flatten_index(self.contents(), k, j);
            }
        }
        match self.cursor_at_marker(marker, predicate) {
            Some((cursor, item_offset)) => {
                proof {
                    let k = self.pos_of(marker.ptr);
                    assert(self.marked_items(marker)[cursor.local_index as int] == self@[self.cursor_index(
                        &cursor,
                    )]);
                    assert forall|i: int| self.marked_start(marker) <= i < self.cursor_index(&cursor) implies call_ensures(
                        predicate,
                        (&#[trigger] self@[i],),
                        None,
                    ) by {
                        let j = i - self.first_item(k);
                        assert(self@[i] == self.marked_items(marker)[j]);
                    }
                }
                Some((Edit { list: self, cursor, notify }, item_offset))
            },
            None => {
                proof {
                    let k = self.pos_of(marker.ptr);
                    assert forall|i: int|
                        self.marked_start(marker) <= i < self.marked_start(marker) + self.marked_len(
                            marker,
                        ) implies call_ensures(predicate, (&#[trigger] self@[i],), None) by {
                        let j = i - self.first_item(k);
                        assert(self@[i] == self.marked_items(marker)[j]);
                    }
                }
                None
            },
        }
    }
}

impl<Item: ListItem, N: NotifyTarget<Item>> SkipList<Item, N> {
    /// An edit at the first item in the marker's node that `predicate`
    /// holds of; nothing if it holds of no item of the node.
    pub fn edit_at_marker_exact<'a, P: Fn(&Item) -> bool>(
        &'a mut self,
        notify: &'a mut N,
        marker: ItemMarker<Item>,
        predicate: P,
    ) -> (found: Option<Edit<'a, Item, N>>)
        requires
            old(self).wf(),
            old(self).marks(marker),
            forall|item: &Item| call_requires(predicate, (item,)),
        ensures
            match found {
                Some(edit) => {
                    &&& edit.wf()
                    &&& *edit.list == *old(self)
                    &&& *final(self) == *final(edit.list)
                    &&& *final(notify) == *final(edit.notify)
                    &&& edit.offset() == 0
                    &&& edit.inside()
                    &&& old(self).marked_start(marker) <= edit.index() < old(self).marked_start(marker)
                        + old(self).marked_len(marker)
                    &&& edit.index() < old(self)@.len()
                    &&& call_ensures(predicate, (&old(self)@[edit.index()],), true)
                    &&& forall|i: int|
                        old(self).marked_start(marker) <= i < edit.index() ==> call_ensures(
                            predicate,
                            (&#[trigger] old(self)@[i],),
                            false,
                        )
                },
                None => {
                    &&& *final(self) == *old(self)
                    &&& *final(notify) == *old(notify)
                    &&& forall|i: int|
                        old(self).marked_start(marker) <= i < old(self).marked_start(marker)
                            + old(self).marked_len(marker)
                            ==> call_ensures(predicate, (&#[trigger] old(self)@[i],), false)
                },
            },
    {
        let holds = &predicate;
        let as_offset = |item: &Item| -> (offset: Option<usize>)
            requires
                call_requires(holds, (item,)),
            ensures
                offset is Some ==> call_ensures(holds, (item,), true),
                offset is None ==> call_ensures(holds, (item,), false),
            {
                if holds(item) {
                    Some(0)
                } else {
                    None
                }
            };
        match self.edit_at_marker(notify, marker, as_offset) {
            Some((edit, _)) => Some(edit),
            None => None,
        }
    }
}

impl<Item: ListItem, N: NotifyTarget<Item>> Default for SkipList<Item, N> {
    fn default() -> (list: Self)
        ensures
            list.wf(),
            list@ == Seq::<Item>::empty(),
    {
        SkipList::new()
    }
}

} // verus!
