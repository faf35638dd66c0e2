//! What the sink is told, and where in the list it is to be found.

use vstd::prelude::*;
use crate::item::ListItem;
use crate::model::flatten;
use crate::model::lemma_flatten_concat;
use crate::model::lemma_flatten_index;
use crate::model::lemma_flatten_take_len;
use crate::cursor::Cursor;
use crate::node::ItemMarker;
use crate::node::marker_of;
use crate::node::NotifyTarget;
use crate::skiplist::SkipList;

verus! {

/// The items of each of the notes.
pub open spec fn slices<Item: ListItem>(notes: Seq<(Seq<Item>, ItemMarker<Item>)>) -> Seq<Seq<Item>> {
    Seq::new(notes.len(), |i: int| notes[i].0)
}

impl<Item: ListItem, N: NotifyTarget<Item>> SkipList<Item, N> {
    /// The items of the note are the items of the node at position `k` from
    /// offset `off` on, and the marker of the note names that node.
    pub(crate) open spec fn holds_at(&self, note: (Seq<Item>, ItemMarker<Item>), k: int, off: int) -> bool {
        &&& 0 <= k < self.len()
        &&& self.order@[k] == note.1.ptr
        &&& 0 <= off
        &&& off + note.0.len() <= self.node(k).items@.len()
        &&& self.node(k).items@.subrange(off, off + note.0.len()) == note.0
    }

    /// The note holds at a place that lies before the cursor.
    pub(crate) open spec fn behind(&self, cur: &Cursor, note: (Seq<Item>, ItemMarker<Item>), k: int, off: int) -> bool {
        &&& self.holds_at(note, k, off)
        &&& k < cur.pos@ || (k == cur.pos@ && off + note.0.len() <= cur.local_index)
    }

    /// Up to item `li` of the node at position `c`, the list is as `pre`
    /// was.
    pub(crate) open spec fn keeps_behind(&self, pre: &Self, c: int, li: int) -> bool {
        &&& 0 <= c < self.len()
        &&& c < pre.len()
        &&& self.order@.take(c + 1) == pre.order@.take(c + 1)
        &&& self.contents().take(c) == pre.contents().take(c)
        &&& 0 <= li <= self.contents()[c].len()
        &&& li <= pre.contents()[c].len()
        &&& self.contents()[c].take(li) == pre.contents()[c].take(li)
        &&& self.head_height() >= pre.head_height()
    }

    /// A note that held before the cursor still does when nothing before
    /// the cursor has changed and the cursor has not moved back.
    pub(crate) proof fn lemma_behind_kept(
        &self,
        pre: &Self,
        cur: &Cursor,
        now: &Cursor,
        note: (Seq<Item>, ItemMarker<Item>),
        k: int,
        off: int,
    )
        requires
            pre.behind(cur, note, k, off),
            self.keeps_behind(pre, cur.pos@, cur.local_index as int),
            now.pos@ < self.len(),
            now.pos@ > cur.pos@ || (now.pos@ == cur.pos@ && now.local_index >= cur.local_index),
        ensures
            self.behind(now, note, k, off),
    {
        let c = cur.pos@;
        let li = cur.local_index as int;
        assert(self.order@[k] == self.order@.take(c + 1)[k]);
        assert(pre.order@[k] == pre.order@.take(c + 1)[k]);
        if k < c {
            assert(self.contents()[k] == self.contents().take(c)[k]);
            assert(pre.contents()[k] == pre.contents().take(c)[k]);
        } else {
            let a = self.contents()[c];
            let b = pre.contents()[c];
            assert(a.subrange(off, off + note.0.len()) =~= a.take(li).subrange(off, off + note.0.len()));
            assert(b.subrange(off, off + note.0.len()) =~= b.take(li).subrange(off, off + note.0.len()));
        }
    }

    /// Keeping what is before one place, and then what is before a later
    /// place, keeps what is before the first.
    pub(crate) proof fn lemma_keeps_behind_twice(&self, mid: &Self, pre: &Self, c: int, li: int, c2: int, li2: int)
        requires
            mid.keeps_behind(pre, c, li),
            self.keeps_behind(mid, c2, li2),
            c2 > c || (c2 == c && li2 >= li),
        ensures
            self.keeps_behind(pre, c, li),
    {
        assert(self.order@.take(c + 1) =~= self.order@.take(c2 + 1).take(c + 1));
        assert(mid.order@.take(c + 1) =~= mid.order@.take(c2 + 1).take(c + 1));
        assert(self.contents().take(c) =~= self.contents().take(c2).take(c));
        assert(mid.contents().take(c) =~= mid.contents().take(c2).take(c));
        if c2 > c {
            assert(self.contents()[c] == self.contents().take(c2)[c]);
            assert(mid.contents()[c] == mid.contents().take(c2)[c]);
        } else {
            let a = self.contents()[c];
            let b = mid.contents()[c];
            assert(a.take(li) =~= a.take(li2).take(li));
            assert(b.take(li) =~= b.take(li2).take(li));
        }
    }

    /// A list keeps what is before any place in itself.
    pub(crate) proof fn lemma_keeps_behind_self(&self, c: int, li: int)
        requires
            0 <= c < self.len(),
            0 <= li <= self.contents()[c].len(),
        ensures
            self.keeps_behind(self, c, li),
    {
    }
}

impl<Item: ListItem, N: NotifyTarget<Item>> SkipList<Item, N> {
    /// What is before a place that is kept is the same in the list as a
    /// whole.
    pub(crate) proof fn lemma_keeps_view(&self, pre: &Self, c: int, li: int)
        requires
            self.keeps_behind(pre, c, li),
        ensures
            self.first_item(c) == pre.first_item(c),
            pre.first_item(c) + li <= flatten(pre.contents()).len(),
            self.first_item(c) + li <= flatten(self.contents()).len(),
            flatten(self.contents()).take(self.first_item(c) + li) == flatten(pre.contents()).take(
                pre.first_item(c) + li,
            ),
    {
        lemma_flatten_index(self.contents(), c, li);
        lemma_flatten_index(pre.contents(), c, li);
        lemma_flatten_take_len(self.contents(), c);
        lemma_flatten_take_len(pre.contents(), c);
    }

    /// The cursor `now` stands where `cur` stands or further on.
    pub(crate) open spec fn not_back(&self, cur: &Cursor, now: &Cursor) -> bool {
        &&& now.pos@ < self.len()
        &&& now.local_index <= self.contents()[now.pos@].len()
        &&& now.pos@ > cur.pos@ || (now.pos@ == cur.pos@ && now.local_index >= cur.local_index)
    }

    /// This list has come from `pre` by writing at the cursor, which has
    /// gone from `cur` to `now`: nothing before `cur` has changed, and where
    /// the sink keeps track, it has been told one note more for each of
    /// `marks`, each of which holds before `now` at the place that its mark
    /// names, and, with `moved`, one more after these, which holds at the
    /// start of the node behind the cursor's.
    pub(crate) open spec fn wrote(
        &self,
        pre: &Self,
        cur: &Cursor,
        now: &Cursor,
        before: Seq<(Seq<Item>, ItemMarker<Item>)>,
        after: Seq<(Seq<Item>, ItemMarker<Item>)>,
        marks: Seq<(int, int)>,
        moved: bool,
    ) -> bool {
        &&& self.keeps_behind(pre, cur.pos@, cur.local_index as int)
        &&& self.not_back(cur, now)
        &&& N::keeps_track() ==> {
            &&& after.len() == before.len() + marks.len() + if moved {
                1int
            } else {
                0int
            }
            &&& after.take(before.len() as int) == before
            &&& forall|i: int|
                0 <= i < marks.len() ==> self.behind(
                    now,
                    #[trigger] after[before.len() + i],
                    marks[i].0,
                    marks[i].1,
                )
            &&& moved ==> self.holds_at(after[after.len() - 1], now.pos@ + 1, 0)
            &&& self.ran(pre, cur, now, after.subrange(before.len() as int, (before.len() + marks.len()) as int))
        }
    }

    /// The notes tell, one behind the other, the items of the list from where
    /// the cursor stood to where it stands.
    pub(crate) open spec fn ran(
        &self,
        pre: &Self,
        cur: &Cursor,
        now: &Cursor,
        notes: Seq<(Seq<Item>, ItemMarker<Item>)>,
    ) -> bool {
        &&& 0 <= pre.cursor_index(cur) <= self.cursor_index(now) <= flatten(self.contents()).len()
        &&& flatten(slices(notes)) == flatten(self.contents()).subrange(
            pre.cursor_index(cur),
            self.cursor_index(now),
        )
    }

    /// Writing twice at a cursor is writing once, as long as the first time
    /// has moved nothing to the node behind the cursor's.
    pub(crate) proof fn lemma_wrote_twice(
        &self,
        mid: &Self,
        pre: &Self,
        cur: &Cursor,
        then: &Cursor,
        now: &Cursor,
        before: Seq<(Seq<Item>, ItemMarker<Item>)>,
        between: Seq<(Seq<Item>, ItemMarker<Item>)>,
        after: Seq<(Seq<Item>, ItemMarker<Item>)>,
        first: Seq<(int, int)>,
        second: Seq<(int, int)>,
        moved: bool,
    )
        requires
            mid.wrote(pre, cur, then, before, between, first, false),
            self.wrote(mid, then, now, between, after, second, moved),
        ensures
            self.wrote(pre, cur, now, before, after, first + second, moved),
    {
        self.lemma_keeps_behind_twice(
            mid,
            pre,
            cur.pos@,
            cur.local_index as int,
            then.pos@,
            then.local_index as int,
        );
        if N::keeps_track() {
            assert(after.take(before.len() as int) =~= after.take(between.len() as int).take(before.len() as int));
            let marks = first + second;
            assert forall|i: int| 0 <= i < marks.len() implies self.behind(
                now,
                #[trigger] after[before.len() + i],
                marks[i].0,
                marks[i].1,
            ) by {
                if i < first.len() {
                    let note = between[before.len() + i];
                    assert(after.take(between.len() as int)[before.len() + i] == note);
                    self.lemma_behind_kept(mid, then, now, note, first[i].0, first[i].1);
                } else {
                    let j = i - first.len();
                    assert(self.behind(now, after[between.len() + j], second[j].0, second[j].1));
                }
            }
            let b0 = before.len() as int;
            let b1 = between.len() as int;
            let one = between.subrange(b0, b0 + first.len());
            let two = after.subrange(b1, b1 + second.len());
            let all = after.subrange(b0, b0 + marks.len());
            assert(all =~= one + two) by {
                assert forall|i: int| 0 <= i < all.len() implies all[i] == (one + two)[i] by {
                    if i < first.len() {
                        assert(after.take(b1)[b0 + i] == between[b0 + i]);
                    }
                }
            }
            assert(slices(all) =~= slices(one) + slices(two));
            lemma_flatten_concat(slices(one), slices(two));
            self.lemma_keeps_view(mid, then.pos@, then.local_index as int);
            let v1 = flatten(mid.contents());
            let v2 = flatten(self.contents());
            let i0 = pre.cursor_index(cur);
            let i1 = mid.cursor_index(then);
            let i2 = self.cursor_index(now);
            assert(v1.subrange(i0, i1) =~= v1.take(i1).subrange(i0, i1));
            assert(v2.subrange(i0, i1) =~= v2.take(i1).subrange(i0, i1));
            assert(v2.subrange(i0, i2) =~= v2.subrange(i0, i1) + v2.subrange(i1, i2));
        }
    }

    /// Moving the cursor on, or changing nothing before it, writes nothing.
    pub(crate) proof fn lemma_wrote_nothing(
        &self,
        pre: &Self,
        cur: &Cursor,
        now: &Cursor,
        told: Seq<(Seq<Item>, ItemMarker<Item>)>,
    )
        requires
            self.keeps_behind(pre, cur.pos@, cur.local_index as int),
            self.not_back(cur, now),
            self.cursor_index(now) == pre.cursor_index(cur),
        ensures
            self.wrote(pre, cur, now, told, told, Seq::<(int, int)>::empty(), false),
    {
        assert(told.take(told.len() as int) =~= told);
        self.lemma_keeps_view(pre, cur.pos@, cur.local_index as int);
        let notes = told.subrange(told.len() as int, told.len() as int);
        assert(slices(notes) =~= Seq::<Seq<Item>>::empty());
        let v = flatten(self.contents());
        assert(v.subrange(self.cursor_index(now), self.cursor_index(now)) =~= Seq::<Item>::empty());
    }

    /// One note told of items moved to the node behind the cursor's, which
    /// has not moved.
    pub(crate) proof fn lemma_wrote_moved(
        &self,
        pre: &Self,
        cur: &Cursor,
        now: &Cursor,
        before: Seq<(Seq<Item>, ItemMarker<Item>)>,
        after: Seq<(Seq<Item>, ItemMarker<Item>)>,
    )
        requires
            self.keeps_behind(pre, cur.pos@, cur.local_index as int),
            self.not_back(cur, now),
            self.cursor_index(now) == pre.cursor_index(cur),
            N::keeps_track() ==> after.len() == before.len() + 1 && after.take(before.len() as int) == before
                && self.holds_at(after[before.len() as int], now.pos@ + 1, 0),
        ensures
            self.wrote(pre, cur, now, before, after, Seq::<(int, int)>::empty(), true),
    {
        self.lemma_keeps_view(pre, cur.pos@, cur.local_index as int);
        if N::keeps_track() {
            let notes = after.subrange(before.len() as int, before.len() as int);
            assert(slices(notes) =~= Seq::<Seq<Item>>::empty());
            let v = flatten(self.contents());
            assert(v.subrange(self.cursor_index(now), self.cursor_index(now)) =~= Seq::<Item>::empty());
        }
    }

    /// One note told of items written just before the cursor.
    pub(crate) proof fn lemma_wrote_one(
        &self,
        pre: &Self,
        cur: &Cursor,
        now: &Cursor,
        before: Seq<(Seq<Item>, ItemMarker<Item>)>,
        after: Seq<(Seq<Item>, ItemMarker<Item>)>,
        k: int,
        off: int,
    )
        requires
            self.keeps_behind(pre, cur.pos@, cur.local_index as int),
            self.not_back(cur, now),
            N::keeps_track() ==> after.len() == before.len() + 1 && after.take(before.len() as int) == before
                && self.behind(now, after[before.len() as int], k, off),
            0 <= pre.cursor_index(cur) <= self.cursor_index(now) <= flatten(self.contents()).len(),
            N::keeps_track() ==> after[before.len() as int].0 == flatten(self.contents()).subrange(
                pre.cursor_index(cur),
                self.cursor_index(now),
            ),
        ensures
            self.wrote(pre, cur, now, before, after, seq![(k, off)], false),
    {
        if N::keeps_track() {
            let notes = after.subrange(before.len() as int, before.len() + 1int);
            assert(slices(notes) =~= seq![after[before.len() as int].0]);
            crate::model::lemma_flatten_one(after[before.len() as int].0);
        }
    }
}

impl<Item: ListItem, N: NotifyTarget<Item>> SkipList<Item, N> {
    /// The node behind the cursor's, as a note of all its items.
    pub(crate) open spec fn next_run(&self, cur: &Cursor) -> (Seq<Item>, ItemMarker<Item>) {
        (self.contents()[cur.pos@ + 1], marker_of(self.order@[cur.pos@ + 1]))
    }

    /// The cursor stands at the end of its node, and there is a node behind
    /// that.
    pub(crate) open spec fn before_next(&self, cur: &Cursor) -> bool {
        &&& cur.local_index == self.contents()[cur.pos@].len()
        &&& cur.pos@ + 1 < self.len()
    }
}

} // verus!
