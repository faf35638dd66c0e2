//! From a node back to a cursor, by way of the parents.

use vstd::prelude::*;
use crate::item::ListItem;
use crate::item::userlen;
use crate::item::lemma_userlen_take_step;
use crate::item::lemma_userlen_take_le;
use crate::model::prefix_sum;
use crate::model::next_from;
use crate::model::prev_from;
use crate::model::lemma_next_props;
use crate::model::lemma_prev_props;
use crate::model::lemma_prev_unique;
use crate::model::lemma_prefix_mono;
use crate::cursor::Cursor;
use crate::node::ItemMarker;
use crate::node::SkipEntry;
use crate::node::NotifyTarget;
use crate::node::HEAD;
use crate::node::NULL;
use crate::node::MAX_HEIGHT;
use crate::skiplist::SkipList;

verus! {

impl<Item: ListItem, N: NotifyTarget<Item>> SkipList<Item, N> {
    /// The position in the list of the node with handle `n`.
    pub(crate) open spec fn pos_of(&self, n: usize) -> int {
        choose|k: int| 0 <= k < self.len() && self.order@[k] == n
    }

    /// The cursor at the item with index `local_index` in node `n`, which
    /// starts `offset` user units into the node. The way up from the node
    /// to the head is found by the parents, and the distances by walking
    /// from each parent forward to its child.
    pub(crate) fn cursor_at_node(&self, n: usize, offset: usize, local_index: usize) -> (cursor: Cursor)
        requires
            self.inv(),
            self.order@.contains(n),
            local_index <= self.node(self.pos_of(n)).items@.len(),
            offset == userlen(self.node(self.pos_of(n)).items@.take(local_index as int)),
        ensures
            self.cursor_ok(&cursor),
            self.residual(&cursor) == 0,
            cursor.pos@ == self.pos_of(n),
            cursor.local_index == local_index,
            cursor.entries[0].node == n,
    {
        let ghost hs = self.hs();
        let ghost szs = self.szs();
        let ghost len = self.len();
        let ghost k0 = self.pos_of(n);
        let ghost target = self.start(k0) + offset;
        let ghost head_h = self.head_height();
        proof {
            let w = choose|w: int| 0 <= w < self.order@.len() && self.order@[w] == n;
            assert(0 <= k0 < len && self.order@[k0] == n);
            if k0 > 0 {
                assert(self.node_shape(k0));
            }
            lemma_userlen_take_le(self.node(k0).items@, local_index as int);
            assert(self.start(k0 + 1) == self.start(k0) + szs[k0]);
            lemma_prefix_mono(szs, k0 + 1, len);
        }
        let mut cursor = Cursor {
            userpos: 0,
            local_index,
            entries: [SkipEntry { node: HEAD, skip_usersize: usize::MAX };MAX_HEIGHT],
            pos: Ghost(k0),
        };
        let mut n = n;
        let mut offset = offset;
        let mut h: usize = 0;
        let ghost mut k = k0;
        let mut done = false;
        while !done
            invariant
                self.inv(),
                hs == self.hs(),
                szs == self.szs(),
                len == self.len(),
                head_h == self.head_height(),
                0 <= k <= k0 < len,
                self.order@[k] == n,
                target <= self.num_usercount,
                offset == target - prefix_sum(szs, k),
                cursor.pos@ == k0,
                cursor.local_index == local_index,
                h <= head_h,
                k > 0 ==> h < self.nodes@[n as int].height,
                done ==> h == head_h && k == 0,
                forall|m: int| k < m <= k0 ==> hs[m] <= h,
                forall|l: int|
                    0 <= l < h ==> {
                        let q = prev_from(hs, k0, l);
                        &&& (#[trigger] cursor.entries[l]).node == self.order@[q]
                        &&& cursor.entries[l].skip_usersize == target - prefix_sum(szs, q)
                    },
                forall|l: int|
                    h <= l < MAX_HEIGHT ==> #[trigger] cursor.entries[l] == (SkipEntry {
                        node: HEAD,
                        skip_usersize: usize::MAX,
                    }),
            decreases k, (if done { 0int } else { 1int }),
        {
            proof {
                if k > 0 {
                    assert(self.node_shape(k));
                }
            }
            let height = self.nodes[n].height;
            let ghost h0 = h;
            while h < height
                invariant
                    self.inv(),
                    hs == self.hs(),
                    szs == self.szs(),
                    0 <= k <= k0 < self.len(),
                    self.order@[k] == n,
                    height == self.nodes@[n as int].height,
                    height <= MAX_HEIGHT,
                    h0 <= h,
                    h <= height || h == h0,
                    offset == target - prefix_sum(szs, k),
                    cursor.pos@ == k0,
                    cursor.local_index == local_index,
                    forall|m: int| k < m <= k0 ==> hs[m] <= h0,
                    forall|l: int|
                        0 <= l < h ==> {
                            let q = prev_from(hs, k0, l);
                            &&& (#[trigger] cursor.entries[l]).node == self.order@[q]
                            &&& cursor.entries[l].skip_usersize == target - prefix_sum(szs, q)
                        },
                    forall|l: int|
                        h <= l < MAX_HEIGHT ==> #[trigger] cursor.entries[l] == (SkipEntry {
                            node: HEAD,
                            skip_usersize: usize::MAX,
                        }),
                decreases height - h,
            {
                proof {
                    lemma_prev_unique(hs, k0, h as int, k);
                }
                cursor.entries[h] = SkipEntry { node: n, skip_usersize: offset };
                h = h + 1;
            }
            let parent = self.nodes[n].parent;
            let node_count = self.nodes.len();
            if parent == NULL {
                done = true;
                proof {
                    if k > 0 {
                        assert(self.parent_ok(k));
                        lemma_prev_props(hs, k - 1, height as int);
                        assert(self.order@[self.parent_pos(k)] < node_count);
                    }
                    assert(k == 0);
                }
            } else {
                proof {
                    if k == 0 {
                        assert(self.nodes@[0].parent == NULL);
                    }
                    assert(k > 0);
                    assert(self.parent_ok(k));
                    lemma_prev_props(hs, k - 1, height as int);
                }
                let ghost kp = prev_from(hs, k - 1, height as int);
                let walk_height = height - 1;
                let mut c = parent;
                let ghost mut kc = kp;
                proof {
                    if kp > 0 {
                        assert(self.node_shape(kp));
                    }
                }
                while c != n
                    invariant
                        self.inv(),
                        hs == self.hs(),
                        szs == self.szs(),
                        0 <= kp <= kc <= k <= k0 < self.len(),
                        self.order@[kc] == c,
                        self.order@[k] == n,
                        k > 0,
                        walk_height + 1 == hs[k],
                        kc == kp || hs[kc] > walk_height,
                        kc == kp ==> walk_height < self.node(kp).height,
                        forall|m: int| kp < m < k ==> hs[m] <= walk_height + 1,
                        target <= self.num_usercount,
                        offset == target - prefix_sum(szs, k) + prefix_sum(szs, kc) - prefix_sum(szs, kp),
                    decreases k - kc,
                {
                    proof {
                        assert(kc != k);
                        if kc > 0 {
                            assert(self.node_shape(kc));
                        }
                        assert(self.link_ok(kc, walk_height as int));
                        lemma_next_props(hs, kc + 1, walk_height as int);
                        let j = next_from(hs, kc + 1, walk_height as int);
                        assert(j <= k) by {
                            if j > k {
                                assert(hs[k] <= walk_height);
                            }
                        }
                        lemma_prefix_mono(szs, kp, kc);
                        lemma_prefix_mono(szs, j, k);
                        lemma_prefix_mono(szs, 0, kp);
                    }
                    let elem = self.nodes[c].nexts[walk_height];
                    offset = offset + elem.skip_usersize;
                    c = elem.node;
                    proof {
                        kc = next_from(hs, kc + 1, walk_height as int);
                    }
                }
                proof {
                    assert(kc == k);
                    assert forall|m: int| kp < m <= k0 implies hs[m] <= h by {
                        if m < k {
                            assert(hs[m] <= height);
                        }
                    }
                    k = kp;
                    if kp > 0 {
                        assert(self.node_shape(kp));
                    }
                }
                n = parent;
            }
        }
        cursor.userpos = offset;
        proof {
            assert forall|l: int| 0 <= l < MAX_HEIGHT implies #[trigger] self.entry_ok(&cursor, l) by {
                if l >= head_h {
                    assert forall|m: int| 0 < m <= k0 implies hs[m] <= l by {
                        assert(self.node_shape(m));
                    }
                    lemma_prev_unique(hs, k0, l, 0);
                }
            }
            assert(self.entry_ok(&cursor, 0));
            lemma_prev_props(hs, k0, 0);
            if k0 > 0 {
                assert(self.node_shape(k0));
            }
            lemma_prev_unique(hs, k0, 0, k0);
        }
        cursor
    }
}

impl<Item: ListItem, N: NotifyTarget<Item>> SkipList<Item, N> {
    /// The items of the node that `marker` points at.
    pub(crate) open spec fn marked_items(&self, marker: ItemMarker<Item>) -> Seq<Item> {
        self.node(self.pos_of(marker.ptr)).items@
    }

    /// The cursor at the first item in the marker's node for which
    /// `predicate` gives an offset, together with that offset; nothing if it
    /// gives none for any item of the node.
    pub(crate) fn cursor_at_marker<P: Fn(&Item) -> Option<usize>>(
        &self,
        marker: ItemMarker<Item>,
        predicate: P,
    ) -> (found: Option<(Cursor, usize)>)
        requires
            self.inv(),
            self.order@.contains(marker.ptr),
            forall|item: &Item| call_requires(predicate, (item,)),
        ensures
            match found {
                Some((cursor, item_offset)) => {
                    &&& self.cursor_ok(&cursor)
                    &&& self.residual(&cursor) == 0
                    &&& cursor.pos@ == self.pos_of(marker.ptr)
                    &&& cursor.local_index < self.marked_items(marker).len()
                    &&& call_ensures(
                        predicate,
                        (&self.marked_items(marker)[cursor.local_index as int],),
                        Some(item_offset),
                    )
                    &&& forall|j: int|
                        0 <= j < cursor.local_index ==> call_ensures(
                            predicate,
                            (&#[trigger] self.marked_items(marker)[j],),
                            None,
                        )
                },
                None => forall|j: int|
                    0 <= j < self.marked_items(marker).len() ==> call_ensures(
                        predicate,
                        (&#[trigger] self.marked_items(marker)[j],),
                        None,
                    ),
            },
    {
        let n = marker.ptr;
        let ghost k = self.pos_of(n);
        let ghost items = self.marked_items(marker);
        proof {
            let w = choose|w: int| 0 <= w < self.order@.len() && self.order@[w] == n;
            assert(0 <= k < self.len() && self.order@[k] == n);
            if k > 0 {
                assert(self.node_shape(k));
            }
            self.lemma_owner_skip(k, 0);
            assert(items.take(0) =~= Seq::<Item>::empty());
        }
        let len = self.nodes[n].items.len();
        let mut offset: usize = 0;
        let mut i: usize = 0;
        while i < len
            invariant
                self.inv(),
                0 <= k < self.len(),
                self.order@[k] == n,
                k == self.pos_of(n),
                n == marker.ptr,
                items == self.node(k).items@,
                len == items.len(),
                i <= len,
                offset == userlen(items.take(i as int)),
                userlen(items) <= usize::MAX,
                self.order@.contains(n),
                forall|item: &Item| call_requires(predicate, (item,)),
                forall|j: int| 0 <= j < i ==> call_ensures(predicate, (&#[trigger] items[j],), None),
            decreases len - i,
        {
            proof {
                lemma_userlen_take_step(items, i as int);
                lemma_userlen_take_le(items, i + 1);
            }
            let item = &self.nodes[n].items[i];
            match predicate(item) {
                Some(item_offset) => {
                    let cursor = self.cursor_at_node(n, offset, i);
                    return Some((cursor, item_offset));
                },
                None => {
                    offset = offset + item.get_usersize();
                    i = i + 1;
                },
            }
        }
        None
    }
}

impl<Item: ListItem, N: NotifyTarget<Item>> SkipList<Item, N> {
    /// A marker of a node of the list names a position in it.
    pub(crate) proof fn lemma_marks(&self, marker: ItemMarker<Item>)
        requires
            self.marks(marker),
        ensures
            self.order@.contains(marker.ptr),
            0 <= self.pos_of(marker.ptr) < self.len(),
            self.order@[self.pos_of(marker.ptr)] == marker.ptr,
    {
        self.lemma_marks_unfold(marker);
        let n = marker.ptr;
        let w = choose|w: int| 0 <= w < self.order@.len() && self.order@[w] == n;
    }
}

} // verus!
