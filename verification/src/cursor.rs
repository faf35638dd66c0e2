//! Cursors: a place in the list together with the path that leads to it.

use vstd::prelude::*;
use crate::item::ListItem;
use crate::item::userlen;
use crate::item::lemma_userlen_take_step;
use crate::item::lemma_userlen_take_le;
use crate::item::lemma_userlen_concat;
use crate::model::prefix_sum;
use crate::model::next_from;
use crate::model::prev_from;
use crate::model::lemma_prefix_mono;
use crate::model::lemma_next_props;
use crate::model::lemma_prev_unique;
use crate::model::lemma_prev_props;
use crate::model::lemma_flatten_index;
use crate::model::lemma_flatten_take_userlen;
use crate::node::SkipEntry;
use crate::node::NotifyTarget;
use crate::node::HEAD;
use crate::node::NULL;
use crate::node::MAX_HEIGHT;
use crate::skiplist::SkipList;

verus! {

/// A place in a list. For each level it names the last node at or before
/// that place which is tall enough to have a link at that level, and how far
/// into that node's span the place lies. Inserting and deleting need exactly
/// these nodes.
///
/// A cursor belongs to the list that made it, and is good until that list is
/// edited through anything but this cursor.
#[derive(Clone, Copy)]
pub struct Cursor {
    /// The user position of the cursor in the whole list.
    pub(crate) userpos: usize,
    /// The index in the cursor's node of the item that the cursor is at or
    /// in. At the length of the node the cursor stands behind its last item.
    pub(crate) local_index: usize,
    pub(crate) entries: [SkipEntry; MAX_HEIGHT],
    /// The position in the list of the cursor's node.
    pub(crate) pos: Ghost<int>,
}

/// Position `idx` with `offset` more into the item there is where user
/// position `target` lands in `s`: the first place with that user position.
pub open spec fn lands<Item: ListItem>(s: Seq<Item>, target: nat, idx: int, offset: nat) -> bool {
    &&& 0 <= idx <= s.len()
    &&& userlen(s.take(idx)) + offset == target
    &&& offset > 0 ==> idx < s.len() && offset < s[idx].usersize()
    &&& offset == 0 && idx > 0 ==> userlen(s.take(idx - 1)) < target
}

impl<Item: ListItem, N: NotifyTarget<Item>> SkipList<Item, N> {
    /// The user position at which the item under the cursor starts.
    pub(crate) open spec fn item_start(&self, cur: &Cursor) -> nat {
        self.start(cur.pos@) + userlen(self.node(cur.pos@).items@.take(cur.local_index as int))
    }

    /// How far into its item the cursor stands.
    pub(crate) open spec fn residual(&self, cur: &Cursor) -> int {
        cur.userpos - self.item_start(cur)
    }

    /// The index in the whole list of the item under the cursor.
    pub(crate) open spec fn cursor_index(&self, cur: &Cursor) -> int {
        self.first_item(cur.pos@) + cur.local_index
    }

    /// Entry `l` of the cursor names the last node at or before the cursor's
    /// that has level `l`, and says how far behind the start of that node the
    /// cursor stands.
    pub(crate) open spec fn entry_ok(&self, cur: &Cursor, l: int) -> bool {
        let q = prev_from(self.hs(), cur.pos@, l);
        &&& cur.entries[l].node == self.order@[q]
        &&& if l < self.head_height() {
            cur.entries[l].skip_usersize == cur.userpos - self.start(q)
        } else {
            cur.entries[l].skip_usersize == usize::MAX
        }
    }

    /// The cursor describes a place in this list.
    pub(crate) open spec fn cursor_ok(&self, cur: &Cursor) -> bool {
        &&& 0 <= cur.pos@ < self.len()
        &&& cur.local_index <= self.node(cur.pos@).items@.len()
        &&& self.item_start(cur) <= cur.userpos
        &&& forall|l: int| 0 <= l < MAX_HEIGHT ==> #[trigger] self.entry_ok(cur, l)
    }

    /// The cursor at user position `target_userpos`, and how far into the
    /// item under the cursor that position lies.
    ///
    /// Where the position is the end of one node and the start of the next,
    /// the cursor is at the end of the first; where items of size zero make
    /// several places share the position, it is the first of them.
    pub(crate) fn cursor_at_userpos(&self, target_userpos: usize) -> (r: (Cursor, usize))
        requires
            self.inv(),
            target_userpos <= self.num_usercount,
        ensures
            self.cursor_ok(&r.0),
            r.0.userpos == target_userpos,
            r.1 == self.residual(&r.0),
            r.0.pos@ == 0 || r.0.local_index > 0 || r.1 > 0,
            r.1 > 0 ==> r.0.local_index < self.node(r.0.pos@).items@.len(),
            lands(self@, target_userpos as nat, self.cursor_index(&r.0), r.1 as nat),
    {
        let ghost hs = self.hs();
        let ghost szs = self.szs();
        let ghost len = self.len();
        let ghost head_h = self.head_height();
        let mut e: usize = HEAD;
        let mut height: usize = self.nodes[0].height - 1;
        let mut offset: usize = target_userpos;
        let mut cursor = Cursor {
            userpos: target_userpos,
            local_index: 0,
            entries: [SkipEntry { node: HEAD, skip_usersize: usize::MAX };MAX_HEIGHT],
            pos: Ghost(0),
        };
        let ghost mut k: int = 0;
        let ghost mut bound: int = len;
        let ghost mut lvl: int = head_h;
        let ghost mut qs: Seq<int> = Seq::new(MAX_HEIGHT as nat, |l: int| 0int);
        let mut done = false;
        proof {
            assert forall|m: int| 0 < m < len implies hs[m] <= lvl by {
                assert(self.node_shape(m));
            }
        }
        while !done
            invariant
                self.inv(),
                hs == self.hs(),
                szs == self.szs(),
                len == self.len(),
                head_h == self.head_height(),
                target_userpos <= self.num_usercount,
                cursor.userpos == target_userpos,
                cursor.local_index == 0,
                0 <= k < bound <= len,
                self.order@[k] == e,
                !done ==> height + 1 == lvl,
                done ==> lvl == 0,
                0 <= lvl <= head_h,
                k == 0 || hs[k] >= lvl,
                offset == target_userpos - prefix_sum(szs, k),
                k == 0 || offset > 0,
                target_userpos <= prefix_sum(szs, bound),
                bound == len || hs[bound] > lvl,
                forall|m: int| k < m < bound ==> hs[m] <= lvl,
                qs.len() == MAX_HEIGHT,
                forall|l: int|
                    lvl <= l < head_h ==> {
                        let q = #[trigger] qs[l];
                        &&& 0 <= q <= k
                        &&& cursor.entries[l].node == self.order@[q]
                        &&& cursor.entries[l].skip_usersize == target_userpos - prefix_sum(szs, q)
                        &&& (q == 0 || hs[q] > l)
                        &&& forall|m: int| q < m < bound ==> hs[m] <= l
                    },
                forall|l: int|
                    head_h <= l < MAX_HEIGHT ==> cursor.entries[l] == (SkipEntry {
                        node: HEAD,
                        skip_usersize: usize::MAX,
                    }),
            decreases lvl, len - k,
        {
            proof {
                if k > 0 {
                    assert(self.node_shape(k));
                }
                assert(self.link_ok(k, height as int));
                lemma_next_props(hs, k + 1, height as int);
            }
            let ghost j = next_from(hs, k + 1, height as int);
            let next = self.nodes[e].nexts[height];
            let skip = next.skip_usersize;
            if offset > skip {
                proof {
                    if j >= bound {
                        lemma_prefix_mono(szs, bound, j);
                    }
                    assert(j < bound);
                    k = j;
                }
                offset = offset - skip;
                e = next.node;
            } else {
                cursor.entries[height] = SkipEntry { skip_usersize: offset, node: e };
                proof {
                    assert(j <= bound) by {
                        if bound < j {
                            assert(hs[bound] <= height);
                        }
                    }
                    qs = qs.update(height as int, k);
                    bound = j;
                    lvl = height as int;
                }
                if height == 0 {
                    done = true;
                } else {
                    height = height - 1;
                }
            }
        }
        proof {
            cursor.pos@ = k;
            assert(bound == k + 1) by {
                if k + 1 < bound {
                    assert(self.node_shape(k + 1));
                    assert(hs[k + 1] <= 0);
                }
            }
            assert(prefix_sum(szs, k + 1) == prefix_sum(szs, k) + szs[k]);
            assert forall|l: int| 0 <= l < MAX_HEIGHT implies #[trigger] self.entry_ok(&cursor, l) by {
                if l < head_h {
                    let q = qs[l];
                    lemma_prev_unique(hs, k, l, q);
                } else {
                    assert forall|m: int| 0 < m <= k implies hs[m] <= l by {
                        assert(self.node_shape(m));
                    }
                    lemma_prev_unique(hs, k, l, 0);
                }
            }
        }
        let ghost items = self.node(k).items@;
        let ghost offset0 = offset;
        proof {
            if k > 0 {
                assert(self.node_shape(k));
            }
        }
        let mut index: usize = 0;
        let mut stop = false;
        while offset > 0 && !stop
            invariant
                self.inv(),
                0 <= k < self.len(),
                self.order@[k] == e,
                items == self.node(k).items@,
                index <= items.len() <= crate::node::NODE_NUM_ITEMS,
                offset0 <= userlen(items),
                offset0 == userlen(items.take(index as int)) + offset,
                index > 0 ==> userlen(items.take(index - 1)) < offset0,
                stop ==> index < items.len() && offset < items[index as int].usersize(),
            decreases items.len() - index, (if stop { 0int } else { 1int }),
        {
            proof {
                if index == items.len() {
                    assert(items.take(index as int) =~= items);
                }
                lemma_userlen_take_step(items, index as int);
            }
            let usersize = self.nodes[e].items[index].get_usersize();
            if usersize > offset {
                stop = true;
            } else {
                offset = offset - usersize;
                index = index + 1;
            }
        }
        cursor.local_index = index;
        proof {
            let landed = Cursor { local_index: 0, ..cursor };
            assert forall|l: int| 0 <= l < MAX_HEIGHT implies #[trigger] self.entry_ok(&cursor, l) by {
                assert(self.entry_ok(&landed, l));
            }
            self.lemma_cursor_lands(&cursor);
        }
        (cursor, offset)
    }

    /// What the user position of a cursor says of the list's items.
    pub(crate) proof fn lemma_cursor_lands(&self, cur: &Cursor)
        requires
            self.inv(),
            self.cursor_ok(cur),
        ensures
            self.item_start(cur) <= self.num_usercount,
            0 <= self.cursor_index(cur) <= self@.len(),
            userlen(self@.take(self.cursor_index(cur))) == self.item_start(cur),
            cur.local_index < self.node(cur.pos@).items@.len() ==> self.cursor_index(cur) < self@.len()
                && self@[self.cursor_index(cur)] == self.node(cur.pos@).items@[cur.local_index as int],
            cur.local_index > 0 ==> userlen(self@.take(self.cursor_index(cur) - 1)) == self.start(
                cur.pos@,
            ) + userlen(self.node(cur.pos@).items@.take(cur.local_index - 1)),
    {
        let c = cur.pos@;
        let ss = self.contents();
        self.lemma_unfold();
        lemma_userlen_take_le(self.node(c).items@, cur.local_index as int);
        assert(self.start(c + 1) == self.start(c) + self.szs()[c]);
        lemma_prefix_mono(self.szs(), c + 1, self.len());
        lemma_flatten_index(ss, c, cur.local_index as int);
        lemma_flatten_take_userlen(ss, c);
        lemma_userlen_concat(crate::model::flatten(ss.take(c)), ss[c].take(cur.local_index as int));
        if cur.local_index > 0 {
            lemma_flatten_index(ss, c, cur.local_index - 1);
            lemma_userlen_concat(crate::model::flatten(ss.take(c)), ss[c].take(cur.local_index - 1));
        }
    }
}

} // verus!

verus! {

impl Cursor {
    /// The handle of the cursor's node.
    pub(crate) fn here_ptr(&self) -> (n: usize)
        ensures
            n == self.entries[0].node,
    {
        self.entries[0].node
    }

    /// Adds `added` to, and takes `removed` from, the skip size of the link
    /// that the cursor came down from at each level below `height`. Those
    /// are the links that span the cursor, so this is how a change of size
    /// at the cursor reaches every level.
    pub(crate) fn update_offsets<Item: ListItem, N: NotifyTarget<Item>>(
        &self,
        list: &mut SkipList<Item, N>,
        height: usize,
        added: usize,
        removed: usize,
    )
        requires
            height <= MAX_HEIGHT,
            forall|i: int|
                0 <= i < height ==> {
                    let n = (#[trigger] self.entries[i]).node;
                    &&& n < old(list).nodes@.len()
                    &&& i < old(list).nodes@[n as int].nexts@.len()
                    &&& old(list).nodes@[n as int].nexts@[i].skip_usersize >= removed
                    &&& old(list).nodes@[n as int].nexts@[i].skip_usersize - removed + added <= usize::MAX
                },
        ensures
            final(list).same_frame(old(list)),
            final(list).num_items == old(list).num_items,
            final(list).num_usercount == old(list).num_usercount,
            final(list).rng == old(list).rng,
            forall|n: int|
                0 <= n < final(list).nodes@.len() ==> (#[trigger] final(list).nodes@[n]).items == old(
                    list,
                ).nodes@[n].items,
            forall|n: int, l: int|
                0 <= n < final(list).nodes@.len() && 0 <= l < final(list).nodes@[n].nexts@.len() ==> (
                #[trigger] final(list).entry(n, l)).skip_usersize == if l < height && n
                    == self.entries[l].node {
                    old(list).entry(n, l).skip_usersize - removed + added
                } else {
                    old(list).entry(n, l).skip_usersize as int
                },
    {
        let mut i: usize = 0;
        while i < height
            invariant
                i <= height <= MAX_HEIGHT,
                list.same_frame(old(list)),
                list.num_items == old(list).num_items,
                list.num_usercount == old(list).num_usercount,
                list.rng == old(list).rng,
                forall|n: int|
                    0 <= n < list.nodes@.len() ==> (#[trigger] list.nodes@[n]).items == old(list).nodes@[n].items,
                forall|j: int|
                    0 <= j < height ==> {
                        let n = (#[trigger] self.entries[j]).node;
                        &&& n < old(list).nodes@.len()
                        &&& j < old(list).nodes@[n as int].nexts@.len()
                        &&& old(list).nodes@[n as int].nexts@[j].skip_usersize >= removed
                        &&& old(list).nodes@[n as int].nexts@[j].skip_usersize - removed + added <= usize::MAX
                    },
                forall|n: int, l: int|
                    0 <= n < list.nodes@.len() && 0 <= l < list.nodes@[n].nexts@.len() ==> (#[trigger] list.entry(
                        n,
                        l,
                    )).skip_usersize == if l < i && n == self.entries[l].node {
                        old(list).entry(n, l).skip_usersize - removed + added
                    } else {
                        old(list).entry(n, l).skip_usersize as int
                    },
            decreases height - i,
        {
            let n = self.entries[i].node;
            let ghost before = *list;
            assert(list.entry(n as int, i as int).skip_usersize == old(list).entry(n as int, i as int).skip_usersize);
            let skip = list.nodes[n].nexts[i].skip_usersize;
            list.nodes[n].nexts[i].skip_usersize = skip - removed + added;
            proof {
                assert forall|m: int, l: int|
                    0 <= m < list.nodes@.len() && 0 <= l < list.nodes@[m].nexts@.len() implies (#[trigger] list.entry(
                    m,
                    l,
                )).skip_usersize == if l < i + 1 && m == self.entries[l].node {
                    old(list).entry(m, l).skip_usersize - removed + added
                } else {
                    old(list).entry(m, l).skip_usersize as int
                } by {
                    assert(before.entry(m, l).skip_usersize == if l < i && m == self.entries[l].node {
                        old(list).entry(m, l).skip_usersize - removed + added
                    } else {
                        old(list).entry(m, l).skip_usersize as int
                    });
                }
                assert forall|m: int, l: int|
                    0 <= m < list.nodes@.len() && 0 <= l < list.nodes@[m].nexts@.len() implies (#[trigger] list.entry(
                    m,
                    l,
                )).node == old(list).entry(m, l).node by {
                    assert(before.entry(m, l).node == old(list).entry(m, l).node);
                }
            }
            i = i + 1;
        }
    }
}

} // verus!

verus! {

impl Cursor {
    /// Moves the cursor back by `offset` user units without changing the
    /// item it is at: from inside an item to the start of that item.
    pub(crate) fn move_to_item_start(&mut self, height: usize, offset: usize)
        requires
            height <= MAX_HEIGHT,
            old(self).userpos >= offset,
            forall|i: int| 0 <= i < height ==> (#[trigger] old(self).entries[i]).skip_usersize >= offset,
        ensures
            final(self).userpos == old(self).userpos - offset,
            final(self).local_index == old(self).local_index,
            final(self).pos == old(self).pos,
            forall|i: int|
                0 <= i < MAX_HEIGHT ==> (#[trigger] final(self).entries[i]).node == old(self).entries[i].node,
            forall|i: int|
                0 <= i < MAX_HEIGHT ==> (#[trigger] final(self).entries[i]).skip_usersize == if i < height {
                    old(self).entries[i].skip_usersize - offset
                } else {
                    old(self).entries[i].skip_usersize as int
                },
    {
        let mut i: usize = 0;
        while i < height
            invariant
                i <= height <= MAX_HEIGHT,
                self.userpos == old(self).userpos,
                self.local_index == old(self).local_index,
                self.pos == old(self).pos,
                forall|j: int| 0 <= j < height ==> (#[trigger] old(self).entries[j]).skip_usersize >= offset,
                forall|j: int|
                    0 <= j < MAX_HEIGHT ==> (#[trigger] self.entries[j]).node == old(self).entries[j].node,
                forall|j: int|
                    0 <= j < MAX_HEIGHT ==> (#[trigger] self.entries[j]).skip_usersize == if j < i {
                        old(self).entries[j].skip_usersize - offset
                    } else {
                        old(self).entries[j].skip_usersize as int
                    },
            decreases height - i,
        {
            assert(old(self).entries[i as int].skip_usersize >= offset);
            let skip = self.entries[i].skip_usersize;
            self.entries[i].skip_usersize = skip - offset;
            i = i + 1;
        }
        self.userpos = self.userpos - offset;
    }

    /// Moves the cursor forward by `size` user units at every level below
    /// `height`.
    pub(crate) fn skip_forward(&mut self, height: usize, size: usize)
        requires
            height <= MAX_HEIGHT,
            old(self).userpos + size <= usize::MAX,
            forall|i: int|
                0 <= i < height ==> (#[trigger] old(self).entries[i]).skip_usersize + size <= usize::MAX,
        ensures
            final(self).userpos == old(self).userpos + size,
            final(self).local_index == old(self).local_index,
            final(self).pos == old(self).pos,
            forall|i: int|
                0 <= i < MAX_HEIGHT ==> (#[trigger] final(self).entries[i]).node == old(self).entries[i].node,
            forall|i: int|
                0 <= i < MAX_HEIGHT ==> (#[trigger] final(self).entries[i]).skip_usersize == if i < height {
                    old(self).entries[i].skip_usersize + size
                } else {
                    old(self).entries[i].skip_usersize as int
                },
    {
        let mut i: usize = 0;
        while i < height
            invariant
                i <= height <= MAX_HEIGHT,
                self.userpos == old(self).userpos,
                self.local_index == old(self).local_index,
                self.pos == old(self).pos,
                forall|j: int|
                    0 <= j < height ==> (#[trigger] old(self).entries[j]).skip_usersize + size <= usize::MAX,
                forall|j: int|
                    0 <= j < MAX_HEIGHT ==> (#[trigger] self.entries[j]).node == old(self).entries[j].node,
                forall|j: int|
                    0 <= j < MAX_HEIGHT ==> (#[trigger] self.entries[j]).skip_usersize == if j < i {
                        old(self).entries[j].skip_usersize + size
                    } else {
                        old(self).entries[j].skip_usersize as int
                    },
            decreases height - i,
        {
            assert(old(self).entries[i as int].skip_usersize + size <= usize::MAX);
            let skip = self.entries[i].skip_usersize;
            self.entries[i].skip_usersize = skip + size;
            i = i + 1;
        }
        self.userpos = self.userpos + size;
    }
}

} // verus!

verus! {

impl Cursor {
    /// Moves the cursor from the end of its node to the end of the node
    /// `node`, which has just been linked in behind it with `height` levels,
    /// `num_items` items and user size `size`.
    pub(crate) fn step_over(&mut self, node: usize, height: usize, head_height: usize, size: usize, num_items: usize)
        requires
            height <= head_height <= MAX_HEIGHT,
            old(self).userpos + size <= usize::MAX,
            forall|i: int|
                0 <= i < head_height ==> (#[trigger] old(self).entries[i]).skip_usersize + size <= usize::MAX,
        ensures
            final(self).userpos == old(self).userpos + size,
            final(self).local_index == num_items,
            final(self).pos@ == old(self).pos@ + 1,
            forall|l: int|
                0 <= l < MAX_HEIGHT ==> (#[trigger] final(self).entries[l]).node == if l < height {
                    node
                } else {
                    old(self).entries[l].node
                },
            forall|l: int|
                0 <= l < MAX_HEIGHT ==> (#[trigger] final(self).entries[l]).skip_usersize == if l < height {
                    size as int
                } else if l < head_height {
                    old(self).entries[l].skip_usersize + size
                } else {
                    old(self).entries[l].skip_usersize as int
                },
    {
        let mut i: usize = 0;
        while i < head_height
            invariant
                i <= head_height <= MAX_HEIGHT,
                height <= head_height,
                self.userpos == old(self).userpos,
                self.pos == old(self).pos,
                forall|j: int|
                    0 <= j < head_height ==> (#[trigger] old(self).entries[j]).skip_usersize + size <= usize::MAX,
                forall|l: int|
                    0 <= l < MAX_HEIGHT ==> (#[trigger] self.entries[l]).node == if l < height && l < i {
                        node
                    } else {
                        old(self).entries[l].node
                    },
                forall|l: int|
                    0 <= l < MAX_HEIGHT ==> (#[trigger] self.entries[l]).skip_usersize == if l < i {
                        if l < height {
                            size as int
                        } else {
                            old(self).entries[l].skip_usersize + size
                        }
                    } else {
                        old(self).entries[l].skip_usersize as int
                    },
            decreases head_height - i,
        {
            if i < height {
                self.entries[i] = SkipEntry { node, skip_usersize: size };
            } else {
                assert(old(self).entries[i as int].skip_usersize + size <= usize::MAX);
                let skip = self.entries[i].skip_usersize;
                self.entries[i].skip_usersize = skip + size;
            }
            i = i + 1;
        }
        self.userpos = self.userpos + size;
        self.local_index = num_items;
        proof {
            self.pos@ = self.pos@ + 1;
        }
    }
}

} // verus!

verus! {

impl Cursor {
    /// Moves the cursor to the start of the next node, and returns that
    /// node.
    pub(crate) fn advance_node<Item: ListItem, N: NotifyTarget<Item>>(&mut self, list: &SkipList<Item, N>) -> (next:
        usize)
        requires
            list.inv(),
            list.cursor_ok(old(self)),
            list.residual(old(self)) == 0,
            old(self).pos@ + 1 < list.len(),
        ensures
            list.cursor_ok(final(self)),
            list.residual(final(self)) == 0,
            final(self).pos@ == old(self).pos@ + 1,
            final(self).local_index == 0,
            final(self).userpos == list.start(final(self).pos@),
            next == list.order@[final(self).pos@],
            next == final(self).entries[0].node,
    {
        let ghost c = self.pos@;
        let ghost hs = list.hs();
        let ghost cur = *self;
        let e = self.entries[0].node;
        let offset = self.entries[0].skip_usersize;
        proof {
            assert(list.entry_ok(self, 0));
            crate::model::lemma_prev_props(hs, c, 0);
            if c > 0 {
                assert(list.node_shape(c));
            }
            crate::model::lemma_prev_unique(hs, c, 0, c);
            assert(list.link_ok(c, 0));
            assert(list.node_shape(c + 1));
            crate::model::lemma_next_unique(hs, c + 1, 0, c + 1);
            let items = list.node(c).items@;
            crate::item::lemma_userlen_take_le(items, self.local_index as int);
            assert(list.start(c + 1) == list.start(c) + list.szs()[c]);
            crate::model::lemma_prefix_mono(list.szs(), c + 1, list.len());
        }
        let advance_by = list.nodes[e].get_userlen() - offset;
        let next = list.nodes[e].get_next_ptr();
        let height = list.nodes[next].height;
        let head_height = list.nodes[0].height;
        let mut i: usize = 0;
        while i < head_height
            invariant
                i <= head_height <= MAX_HEIGHT,
                head_height == list.head_height(),
                height <= head_height,
                list.cursor_ok(&cur),
                self.userpos == cur.userpos,
                self.local_index == cur.local_index,
                self.pos == cur.pos,
                cur.userpos + advance_by <= list.num_usercount,
                forall|l: int|
                    0 <= l < MAX_HEIGHT ==> #[trigger] self.entries[l] == if l < i {
                        if l < height {
                            SkipEntry { node: next, skip_usersize: 0 }
                        } else {
                            SkipEntry {
                                node: cur.entries[l].node,
                                skip_usersize: (cur.entries[l].skip_usersize + advance_by) as usize,
                            }
                        }
                    } else {
                        cur.entries[l]
                    },
            decreases head_height - i,
        {
            if i < height {
                self.entries[i] = SkipEntry { node: next, skip_usersize: 0 };
            } else {
                proof {
                    assert(list.entry_ok(&cur, i as int));
                }
                let skip = self.entries[i].skip_usersize;
                self.entries[i].skip_usersize = skip + advance_by;
            }
            i = i + 1;
        }
        self.userpos = self.userpos + advance_by;
        self.local_index = 0;
        proof {
            self.pos@ = c + 1;
            assert(list.node(c + 1).items@.take(0) =~= Seq::<Item>::empty());
            assert forall|l: int| 0 <= l < MAX_HEIGHT implies #[trigger] list.entry_ok(self, l) by {
                assert(list.entry_ok(&cur, l));
                crate::model::lemma_prev_props(hs, c, l);
            }
        }
        next
    }
}

} // verus!

verus! {

impl Cursor {
    /// Whether the cursor stands behind the last item of its node.
    pub(crate) fn is_at_node_end<Item: ListItem, N: NotifyTarget<Item>>(&self, list: &SkipList<Item, N>) -> (b:
        bool)
        requires
            list.inv(),
            list.cursor_ok(self),
        ensures
            b == (self.local_index == list.node(self.pos@).items@.len()),
    {
        proof {
            list.lemma_here(self);
        }
        self.local_index == list.nodes[self.here_ptr()].items.len()
    }

    /// The first item of the node after the cursor's, if there is one.
    pub(crate) fn peek_next_item<'a, Item: ListItem, N: NotifyTarget<Item>>(
        &self,
        list: &'a SkipList<Item, N>,
    ) -> (item: Option<&'a Item>)
        requires
            list.inv(),
            list.cursor_ok(self),
        ensures
            item == if self.pos@ + 1 < list.len() {
                Some(&list.node(self.pos@ + 1).items@[0])
            } else {
                None
            },
    {
        proof {
            list.lemma_here(self);
        }
        let next = list.nodes[self.here_ptr()].get_next_ptr();
        let node_count = list.nodes.len();
        if next == NULL {
            None
        } else {
            Some(&list.nodes[next].items[0])
        }
    }

    /// The item that the cursor is at or in, if the cursor is not at the
    /// end of the list.
    pub(crate) fn current_item<'a, Item: ListItem, N: NotifyTarget<Item>>(
        &self,
        list: &'a SkipList<Item, N>,
    ) -> (item: Option<&'a Item>)
        requires
            list.inv(),
            list.cursor_ok(self),
        ensures
            item == if list.cursor_index(self) < list@.len() {
                Some(&list@[list.cursor_index(self)])
            } else {
                None
            },
    {
        proof {
            list.lemma_here(self);
            list.lemma_cursor_lands(self);
            list.lemma_unfold();
            let c = self.pos@;
            assert(list.first_item(c + 1) == list.first_item(c) + list.cnts()[c]);
            if c + 1 < list.len() {
                lemma_flatten_index(list.contents(), c + 1, 0);
            } else {
                crate::model::lemma_flatten_len(list.contents());
            }
        }
        let e = self.here_ptr();
        if self.local_index < list.nodes[e].items.len() {
            Some(&list.nodes[e].items[self.local_index])
        } else {
            self.peek_next_item(list)
        }
    }

    /// The item before the cursor, if the cursor is not at the start of the
    /// list.
    pub(crate) fn prev_item<'a, Item: ListItem, N: NotifyTarget<Item>>(&self, list: &'a SkipList<Item, N>) -> (item:
        Option<&'a Item>)
        requires
            list.inv(),
            list.cursor_ok(self),
            self.pos@ == 0 || self.local_index > 0,
        ensures
            item == if list.cursor_index(self) > 0 {
                Some(&list@[list.cursor_index(self) - 1])
            } else {
                None
            },
    {
        proof {
            list.lemma_here(self);
            list.lemma_cursor_lands(self);
            list.lemma_unfold();
            if self.local_index > 0 {
                lemma_flatten_index(list.contents(), self.pos@, self.local_index - 1);
            }
        }
        let e = self.here_ptr();
        if self.local_index == 0 {
            None
        } else {
            Some(&list.nodes[e].items[self.local_index - 1])
        }
    }

    /// Moves the cursor over the item it is at.
    pub(crate) fn advance_item<Item: ListItem, N: NotifyTarget<Item>>(
        &mut self,
        list: &SkipList<Item, N>,
        height: usize,
    )
        requires
            list.inv(),
            list.cursor_ok(old(self)),
            height == list.head_height(),
            list.cursor_index(old(self)) < list@.len(),
            list.residual(old(self)) == 0 || old(self).local_index < list.node(old(self).pos@).items@.len(),
            old(self).userpos + list@[list.cursor_index(old(self))].usersize() <= usize::MAX,
        ensures
            list.cursor_ok(final(self)),
            list.cursor_index(final(self)) == list.cursor_index(old(self)) + 1,
            list.residual(final(self)) == list.residual(old(self)),
            final(self).local_index > 0,
            final(self).userpos == old(self).userpos + list@[list.cursor_index(old(self))].usersize(),
    {
        let ghost i0 = list.cursor_index(self);
        proof {
            list.lemma_here(self);
            list.lemma_cursor_lands(self);
            list.lemma_unfold();
            let c = self.pos@;
            assert(list.first_item(c + 1) == list.first_item(c) + list.cnts()[c]);
            crate::model::lemma_flatten_len(list.contents());
            if c + 1 < list.len() {
                assert(list.node_shape(c + 1));
                lemma_flatten_index(list.contents(), c + 1, 0);
            }
            let items = list.node(c).items@;
            if self.local_index == items.len() {
                assert(items.take(items.len() as int) =~= items);
                assert(list.start(c + 1) == list.start(c) + list.szs()[c]);
            }
        }
        if self.is_at_node_end(list) {
            self.advance_node(list);
        }
        let ghost mid = *self;
        let e = self.here_ptr();
        proof {
            list.lemma_here(self);
            list.lemma_cursor_lands(self);
            lemma_userlen_take_step(list.node(self.pos@).items@, self.local_index as int);
            assert forall|i: int| 0 <= i < height implies (#[trigger] self.entries[i]).skip_usersize
                + list@[i0].usersize() <= usize::MAX by {
                assert(list.entry_ok(self, i));
            }
        }
        let usersize = list.nodes[e].items[self.local_index].get_usersize();
        self.skip_forward(height, usersize);
        self.local_index = self.local_index + 1;
        proof {
            assert forall|l: int| 0 <= l < MAX_HEIGHT implies #[trigger] list.entry_ok(self, l) by {
                assert(list.entry_ok(&mid, l));
            }
        }
    }
}

impl<Item: ListItem, N: NotifyTarget<Item>> SkipList<Item, N> {
    /// The first entry of a cursor names the cursor's node.
    pub(crate) proof fn lemma_here(&self, cur: &Cursor)
        requires
            self.inv(),
            self.cursor_ok(cur),
        ensures
            cur.entries[0].node == self.order@[cur.pos@],
            cur.entries[0].node < self.nodes@.len(),
            self.nodes@[cur.entries[0].node as int].nexts@.len() >= 1,
            self.nodes@[cur.entries[0].node as int].nexts@[0].node == if cur.pos@ + 1 < self.len() {
                self.order@[cur.pos@ + 1]
            } else {
                NULL
            },
            cur.pos@ + 1 < self.len() ==> self.order@[cur.pos@ + 1] < self.nodes@.len() && self.node(
                cur.pos@ + 1,
            ).items@.len() >= 1,
            cur.pos@ > 0 ==> self.node(cur.pos@).items@.len() >= 1,
    {
        let c = cur.pos@;
        let hs = self.hs();
        assert(self.entry_ok(cur, 0));
        lemma_prev_props(hs, c, 0);
        if c > 0 {
            assert(self.node_shape(c));
        }
        lemma_prev_unique(hs, c, 0, c);
        assert(self.link_ok(c, 0));
        if c + 1 < self.len() {
            assert(self.node_shape(c + 1));
        }
        crate::model::lemma_next_unique(hs, c + 1, 0, c + 1);
    }
}

impl PartialEq for Cursor {
    /// Two cursors are the same where they stand at the same user position
    /// and item and have come down the same way. A cursor at the end of a
    /// node and one at the start of the next are not the same, though they
    /// stand at the same place; the edits leave cursors at the ends of
    /// nodes.
    fn eq(&self, other: &Self) -> (r: bool) {
        if self.userpos != other.userpos || self.local_index != other.local_index {
            return false;
        }
        let mut i: usize = 0;
        while i < MAX_HEIGHT
            invariant
                i <= MAX_HEIGHT,
                self.userpos == other.userpos,
                self.local_index == other.local_index,
                forall|l: int| 0 <= l < i ==> #[trigger] self.entries[l] == other.entries[l],
            decreases MAX_HEIGHT - i,
        {
            let a = self.entries[i];
            let b = other.entries[i];
            if a.node != b.node || a.skip_usersize != b.skip_usersize {
                return false;
            }
            i = i + 1;
        }
        true
    }
}

impl vstd::std_specs::cmp::PartialEqSpecImpl for Cursor {
    open spec fn obeys_eq_spec() -> bool {
        true
    }

    open spec fn eq_spec(&self, other: &Self) -> bool {
        self.same_place(other)
    }
}

impl Eq for Cursor {

}

impl Cursor {
    /// The user position, the item index and every entry agree.
    pub closed spec fn same_place(&self, other: &Self) -> bool {
        &&& self.userpos == other.userpos
        &&& self.local_index == other.local_index
        &&& forall|l: int| 0 <= l < MAX_HEIGHT ==> #[trigger] self.entries[l] == other.entries[l]
    }
}

impl<Item: ListItem, N: NotifyTarget<Item>> SkipList<Item, N> {
    /// Two cursors of a list that stand at the same item of the same node
    /// with the same user position are the same.
    pub(crate) proof fn lemma_cursor_unique(&self, a: &Cursor, b: &Cursor)
        requires
            self.inv(),
            self.cursor_ok(a),
            self.cursor_ok(b),
            a.pos@ == b.pos@,
            a.local_index == b.local_index,
            a.userpos == b.userpos,
        ensures
            a.same_place(b),
    {
        a.lemma_same_place(b);
        assert forall|l: int| 0 <= l < MAX_HEIGHT implies #[trigger] a.entries[l] == b.entries[l] by {
            assert(self.entry_ok(a, l));
            assert(self.entry_ok(b, l));
            lemma_prev_props(self.hs(), a.pos@, l);
        }
    }
}

impl Cursor {
    /// What `same_place` stands for.
    pub(crate) proof fn lemma_same_place(&self, other: &Self)
        ensures
            self.same_place(other) == (self.userpos == other.userpos && self.local_index == other.local_index
                && forall|l: int| 0 <= l < MAX_HEIGHT ==> #[trigger] self.entries[l] == other.entries[l]),
    {
    }
}

} // verus!
