//! Reading a list from front to back.

use vstd::prelude::*;
use vstd::std_specs::cmp::PartialEqSpec;
use crate::item::ListItem;
use crate::model::flatten;
use crate::model::lemma_flatten_index;
use crate::model::lemma_flatten_len;
use crate::model::lemma_prefix_mono;
use crate::model::lemma_next_unique;
use crate::node::ItemMarker;
use crate::node::NotifyTarget;
use crate::node::HEAD;
use crate::node::NULL;
use crate::skiplist::SkipList;

verus! {

/// Goes over the items of a list, front to back.
pub struct ListItemIter<'a, Item: ListItem, N: NotifyTarget<Item> = ()> {
    list: &'a SkipList<Item, N>,
    /// The node of the next item, or `NULL` at the end.
    node: usize,
    /// The index of the next item in its node.
    index: usize,
    remaining_items: usize,
    /// The position in the list of `node`.
    pos: Ghost<int>,
}

impl<Item: ListItem, N: NotifyTarget<Item>> SkipList<Item, N> {
    /// The link at level 0 of the node at position `k` leads to the node at
    /// the next position.
    pub(crate) proof fn lemma_step(&self, k: int)
        requires
            self.inv(),
            0 <= k < self.len(),
        ensures
            self.order@[k] < self.nodes@.len(),
            self.node(k).nexts@.len() >= 1,
            self.node(k).nexts@[0].node == if k + 1 < self.len() {
                self.order@[k + 1]
            } else {
                NULL
            },
            k + 1 < self.len() ==> self.order@[k + 1] < self.nodes@.len() && self.node(k + 1).items@.len() >= 1,
            self.first_item(k + 1) == self.first_item(k) + self.node(k).items@.len(),
            self.first_item(k + 1) <= self@.len(),
            self.first_item(self.len()) == self@.len(),
            flatten(self.contents().take(k + 1)) == flatten(self.contents().take(k)) + self.node(k).items@,
    {
        if k > 0 {
            assert(self.node_shape(k));
        }
        assert(self.link_ok(k, 0));
        if k + 1 < self.len() {
            assert(self.node_shape(k + 1));
        }
        lemma_next_unique(self.hs(), k + 1, 0, k + 1);
        assert(self.first_item(k + 1) == self.first_item(k) + self.cnts()[k]);
        lemma_prefix_mono(self.cnts(), k + 1, self.len());
        self.lemma_unfold();
        lemma_flatten_len(self.contents());
        assert(self.contents().take(k + 1).drop_last() =~= self.contents().take(k));
    }

    /// The items of the list, front to back.
    pub fn iter(&self) -> (it: ListItemIter<'_, Item, N>)
        requires
            self.wf(),
        ensures
            it.wf(),
            it.items() == self@,
            it.next_index() == 0,
    {
        proof {
            self.lemma_unfold();
            self.lemma_step(0);
            lemma_flatten_len(self.contents());
            assert(self.first_item(1) == self.first_item(0) + self.cnts()[0]);
        }
        let node_count = self.nodes.len();
        let first = self.nodes[HEAD].nexts[0].node;
        ListItemIter { list: self, node: first, index: 0, remaining_items: self.num_items, pos: Ghost(1) }
    }

    /// A copy of the items of the list, in order.
    pub fn to_vec(&self) -> (out: Vec<Item>) where Item: Copy
        requires
            self.wf(),
        ensures
            out@ == self@,
    {
        let mut out: Vec<Item> = Vec::new();
        let mut n = HEAD;
        let ghost mut k: int = 0;
        let mut done = false;
        proof {
            self.lemma_unfold();
            assert(flatten(self.contents().take(0)) =~= Seq::<Item>::empty());
        }
        while !done
            invariant
                self.inv(),
                0 <= k <= self.len(),
                !done ==> k < self.len() && self.order@[k] == n,
                done ==> k == self.len(),
                out@ == flatten(self.contents().take(k)),
            decreases self.len() - k, (if done { 0int } else { 1int }),
        {
            proof {
                self.lemma_step(k);
            }
            let len = self.nodes[n].items.len();
            let mut j: usize = 0;
            while j < len
                invariant
                    self.inv(),
                    0 <= k < self.len(),
                    self.order@[k] == n,
                    n < self.nodes@.len(),
                    len == self.node(k).items@.len(),
                    j <= len,
                    out@ == flatten(self.contents().take(k)) + self.node(k).items@.take(j as int),
                decreases len - j,
            {
                out.push(self.nodes[n].items[j]);
                proof {
                    assert(self.node(k).items@.take(j + 1) =~= self.node(k).items@.take(j as int).push(
                        self.node(k).items@[j as int],
                    ));
                }
                j = j + 1;
            }
            proof {
                assert(self.node(k).items@.take(len as int) =~= self.node(k).items@);
            }
            let node_count = self.nodes.len();
            let next = self.nodes[n].nexts[0].node;
            if next == NULL {
                done = true;
            } else {
                n = next;
            }
            proof {
                k = k + 1;
            }
        }
        proof {
            self.lemma_unfold();
            assert(self.contents().take(self.len()) =~= self.contents());
        }
        out
    }

    /// Whether the list holds as many items as `other`, each equal to the one
    /// at its place in `other`.
    pub fn eq_list<Rhs>(&self, other: &[Rhs]) -> (same: bool) where Item: PartialEq<Rhs>
        requires
            self.wf(),
        ensures
            Item::obeys_eq_spec() ==> same == (self@.len() == other@.len() && forall|i: int|
                0 <= i < self@.len() ==> (#[trigger] self@[i]).eq_spec(&other@[i])),
    {
        proof {
            self.lemma_unfold();
        }
        let other_len = other.len();
        let mut pos: usize = 0;
        let mut n = HEAD;
        let ghost mut k: int = 0;
        let mut done = false;
        while !done
            invariant
                self.inv(),
                0 <= k <= self.len(),
                !done ==> k < self.len() && self.order@[k] == n,
                done ==> k == self.len(),
                other_len == other@.len(),
                pos == self.first_item(k),
                pos <= other_len,
                Item::obeys_eq_spec() ==> forall|i: int| 0 <= i < pos ==> (#[trigger] self@[i]).eq_spec(&other@[i]),
            decreases self.len() - k, (if done { 0int } else { 1int }),
        {
            proof {
                self.lemma_step(k);
                self.lemma_unfold();
            }
            let my_len = self.nodes[n].items.len();
            if my_len > other_len - pos {
                return false;
            }
            let mut j: usize = 0;
            while j < my_len
                invariant
                    self.inv(),
                    0 <= k < self.len(),
                    self.order@[k] == n,
                    n < self.nodes@.len(),
                    my_len == self.node(k).items@.len(),
                    j <= my_len,
                    other_len == other@.len(),
                    pos == self.first_item(k),
                    pos + my_len <= other_len,
                    Item::obeys_eq_spec() ==> forall|i: int|
                        0 <= i < pos + j ==> (#[trigger] self@[i]).eq_spec(&other@[i]),
                decreases my_len - j,
            {
                proof {
                    self.lemma_unfold();
                    lemma_flatten_index(self.contents(), k, j as int);
                }
                if !(self.nodes[n].items[j] == other[pos + j]) {
                    return false;
                }
                j = j + 1;
            }
            pos = pos + my_len;
            let node_count = self.nodes.len();
            let next = self.nodes[n].nexts[0].node;
            if next == NULL {
                done = true;
            } else {
                n = next;
            }
            proof {
                k = k + 1;
            }
        }
        proof {
            self.lemma_step(0);
        }
        pos == other_len
    }

    /// The number of items in each node of the list, in order.
    pub fn node_lens(&self) -> (lens: Vec<usize>)
        requires
            self.wf(),
        ensures
            lens@.len() == self.parts().len(),
            forall|i: int| 0 <= i < lens@.len() ==> #[trigger] lens@[i] == self.parts()[i],
    {
        proof {
            self.lemma_unfold();
            self.lemma_step(0);
        }
        let mut lens: Vec<usize> = Vec::new();
        let node_count = self.nodes.len();
        let mut n = self.nodes[HEAD].nexts[0].node;
        let ghost mut k: int = 1;
        while n != NULL
            invariant
                self.inv(),
                1 <= k <= self.len(),
                n == (if k < self.len() {
                    self.order@[k]
                } else {
                    NULL
                }),
                lens@.len() == k - 1,
                forall|i: int| 0 <= i < lens@.len() ==> #[trigger] lens@[i] == self.cnts()[i + 1],
            decreases self.len() - k,
        {
            proof {
                self.lemma_step(k);
            }
            lens.push(self.nodes[n].items.len());
            n = self.nodes[n].nexts[0].node;
            proof {
                k = k + 1;
            }
        }
        proof {
            if k < self.len() {
                assert(self.order@[k] < node_count);
            }
        }
        lens
    }

    /// The marker points at a node of this list.
    pub closed spec fn marks(&self, marker: ItemMarker<Item>) -> bool {
        self.order@.contains(marker.ptr)
    }

    /// What `marks` stands for.
    pub(crate) proof fn lemma_marks_unfold(&self, marker: ItemMarker<Item>)
        ensures
            self.marks(marker) == self.order@.contains(marker.ptr),
    {
    }

    /// Whether the marker points at a node of this list.
    pub fn has_marker(&self, marker: ItemMarker<Item>) -> (found: bool)
        requires
            self.wf(),
        ensures
            found == self.marks(marker),
    {
        proof {
            self.lemma_unfold();
        }
        let mut n = HEAD;
        let ghost mut k: int = 0;
        let mut done = false;
        while !done
            invariant
                self.inv(),
                0 <= k <= self.len(),
                !done ==> k < self.len() && self.order@[k] == n,
                done ==> k == self.len(),
                forall|i: int| 0 <= i < k ==> self.order@[i] != marker.ptr,
            decreases self.len() - k, (if done { 0int } else { 1int }),
        {
            proof {
                self.lemma_step(k);
            }
            if n == marker.ptr {
                return true;
            }
            let node_count = self.nodes.len();
            let next = self.nodes[n].nexts[0].node;
            if next == NULL {
                done = true;
            } else {
                n = next;
            }
            proof {
                k = k + 1;
            }
        }
        false
    }
}

impl<'a, Item: ListItem, N: NotifyTarget<Item>> ListItemIter<'a, Item, N> {
    /// The iterator is at a place in a well formed list.
    pub closed spec fn wf(&self) -> bool {
        &&& self.list.inv()
        &&& self.index == 0 || self.node != NULL
        &&& self.node == NULL ==> self.pos@ == self.list.len()
        &&& self.node != NULL ==> 1 <= self.pos@ < self.list.len() && self.list.order@[self.pos@] == self.node
            && self.index < self.list.node(self.pos@).items@.len()
        &&& 1 <= self.pos@ <= self.list.len()
        &&& self.remaining_items == self.list@.len() - self.next_index()
    }

    /// The items of the list that the iterator goes over.
    pub closed spec fn items(&self) -> Seq<Item> {
        self.list@
    }

    /// The index in the list of the item that comes next.
    pub closed spec fn next_index(&self) -> int {
        self.list.first_item(self.pos@) + self.index
    }

    /// The next item, if there is one.
    pub fn next(&mut self) -> (item: Option<&'a Item>)
        requires
            old(self).wf(),
        ensures
            final(self).wf(),
            final(self).items() == old(self).items(),
            0 <= old(self).next_index() <= old(self).items().len(),
            item == if old(self).next_index() < old(self).items().len() {
                Some(&old(self).items()[old(self).next_index()])
            } else {
                None
            },
            final(self).next_index() == if old(self).next_index() < old(self).items().len() {
                old(self).next_index() + 1
            } else {
                old(self).next_index()
            },
    {
        proof {
            self.list.lemma_step(0);
            self.list.lemma_unfold();
            if self.node != NULL {
                self.list.lemma_step(self.pos@);
                lemma_flatten_index(self.list.contents(), self.pos@, self.index as int);
            }
        }
        if self.node == NULL {
            None
        } else {
            let list = self.list;
            let current = &list.nodes[self.node].items[self.index];
            self.index = self.index + 1;
            self.remaining_items = self.remaining_items - 1;
            if self.index == list.nodes[self.node].items.len() {
                let node_count = list.nodes.len();
                self.index = 0;
                self.node = list.nodes[self.node].nexts[0].node;
                proof {
                    self.pos@ = self.pos@ + 1;
                }
            }
            Some(current)
        }
    }

    /// How many items are still to come.
    pub fn size_hint(&self) -> (hint: (usize, Option<usize>))
        requires
            self.wf(),
        ensures
            hint.0 == self.items().len() - self.next_index(),
            hint.1 == Some(hint.0),
    {
        (self.remaining_items, Some(self.remaining_items))
    }
}

} // verus!
