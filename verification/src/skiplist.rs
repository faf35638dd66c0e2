//! The list itself: an arena of nodes threaded by forward links at several
//! levels, and what it means for that arena to be in order.

use vstd::prelude::*;
use std::marker::PhantomData;
use rand::rngs::SmallRng;
use crate::item::ListItem;
use crate::item::userlen;
use crate::model::flatten;
use crate::model::lens;
use crate::model::sizes;
use crate::model::prefix_sum;
use crate::model::next_from;
use crate::model::prev_from;
use crate::node::ItemMarker;
use crate::node::Node;
use crate::node::SkipEntry;
use crate::node::NotifyTarget;
use crate::node::seeded_rng;
use crate::node::HEAD;
use crate::node::NULL;
use crate::node::MAX_HEIGHT;
use crate::node::NODE_NUM_ITEMS;

verus! {

/// An ordered sequence of items which can be edited at any position, where
/// positions are measured in the items' own user sizes.
pub struct SkipList<Item: ListItem, N: NotifyTarget<Item> = ()> {
    /// The total number of items in the list.
    pub(crate) num_items: usize,
    /// The size of the list in user specified units.
    pub(crate) num_usercount: usize,
    /// The generator that node heights are drawn from. It is made on first
    /// use unless a seed was given before.
    pub(crate) rng: Option<SmallRng>,
    /// Every node, the head first. A node is named by its index here.
    pub(crate) nodes: Vec<Node<Item>>,
    /// Indices of nodes that are out of the list and can be used again.
    pub(crate) free: Vec<usize>,
    /// The nodes of the list in list order, the head first.
    pub(crate) order: Ghost<Seq<usize>>,
    pub(crate) _phantom: PhantomData<N>,
}

impl<Item: ListItem, N: NotifyTarget<Item>> SkipList<Item, N> {
    /// The node at position `k` of the list.
    pub(crate) open spec fn node(&self, k: int) -> Node<Item> {
        self.nodes@[self.order@[k] as int]
    }

    /// The number of nodes in the list, the head included.
    pub(crate) open spec fn len(&self) -> int {
        self.order@.len() as int
    }

    /// The heights of the nodes, by position. The head, at position 0, is
    /// left out of it and counts as 0: it holds no items and nothing looks
    /// for it by height.
    pub(crate) open spec fn hs(&self) -> Seq<int> {
        Seq::new(
            self.order@.len(),
            |k: int|
                if k == 0 {
                    0int
                } else {
                    self.node(k).height as int
                },
        )
    }

    /// The items of the nodes, by position.
    pub(crate) open spec fn contents(&self) -> Seq<Seq<Item>> {
        Seq::new(self.order@.len(), |k: int| self.node(k).items@)
    }

    /// The user sizes of the nodes, by position.
    pub(crate) open spec fn szs(&self) -> Seq<nat> {
        sizes(self.contents())
    }

    /// The item counts of the nodes, by position.
    pub(crate) open spec fn cnts(&self) -> Seq<nat> {
        lens(self.contents())
    }

    /// The user position at which node `k` starts.
    pub(crate) open spec fn start(&self, k: int) -> nat {
        prefix_sum(self.szs(), k)
    }

    /// The number of items before node `k`.
    pub(crate) open spec fn first_item(&self, k: int) -> nat {
        prefix_sum(self.cnts(), k)
    }

    /// The number of levels in use.
    pub(crate) open spec fn head_height(&self) -> int {
        self.nodes@[0].height as int
    }

    /// The nodes of the list are nodes of the arena, each once, the head first;
    /// and the nodes up for use again are others, each once.
    pub(crate) open spec fn arena_ok(&self) -> bool {
        &&& self.nodes@.len() >= 1
        &&& self.order@.len() >= 1
        &&& self.order@[0] == HEAD
        &&& self.order@.no_duplicates()
        &&& forall|k: int| 0 <= k < self.order@.len() ==> (#[trigger] self.order@[k]) < self.nodes@.len()
        &&& self.free@.no_duplicates()
        &&& forall|j: int|
            0 <= j < self.free@.len() ==> (#[trigger] self.free@[j]) < self.nodes@.len()
                && !self.order@.contains(self.free@[j])
    }

    /// The head holds no items and has no parent; it has room for every level,
    /// and its links above the levels in use lead nowhere.
    pub(crate) open spec fn head_ok(&self) -> bool {
        let head = self.nodes@[0];
        &&& head.items@.len() == 0
        &&& head.nexts@.len() == MAX_HEIGHT
        &&& 1 <= head.height <= MAX_HEIGHT
        &&& head.parent == NULL
        &&& forall|i: int| head.height <= i < MAX_HEIGHT ==> (#[trigger] head.nexts@[i]).node == NULL
    }

    /// The node at position `k` holds at least one item and no more than fit, and
    /// is no taller than the head.
    pub(crate) open spec fn node_shape(&self, k: int) -> bool {
        let n = self.node(k);
        &&& 1 <= n.height <= self.head_height()
        &&& n.nexts@.len() == n.height
        &&& 1 <= n.items@.len() <= NODE_NUM_ITEMS
    }

    /// Every node but the head is in shape.
    pub(crate) open spec fn shapes_ok(&self) -> bool {
        forall|k: int| 1 <= k < self.len() ==> #[trigger] self.node_shape(k)
    }

    /// The position that the link of node `k` at level `i` leads to.
    pub(crate) open spec fn next_pos(&self, k: int, i: int) -> int {
        next_from(self.hs(), k + 1, i)
    }

    /// Level `i` of node `k` leads to the next node that is taller than `i`
    /// and carries the user size up to that node's start.
    pub(crate) open spec fn link_ok(&self, k: int, i: int) -> bool {
        let e = self.node(k).nexts@[i];
        let j = self.next_pos(k, i);
        &&& e.node == (if j < self.len() {
            self.order@[j]
        } else {
            NULL
        })
        &&& e.skip_usersize == self.start(j) - self.start(k)
    }

    /// Every link of every node leads where it should and carries the size
    /// that it should.
    pub(crate) open spec fn links_ok(&self) -> bool {
        forall|k: int, i: int|
            0 <= k < self.len() && 0 <= i < self.node(k).height ==> #[trigger] self.link_ok(k, i)
    }

    /// The position of the nearest node before `k` that is taller than it.
    pub(crate) open spec fn parent_pos(&self, k: int) -> int {
        prev_from(self.hs(), k - 1, self.node(k).height as int)
    }

    /// The parent of the node at position `k` is the nearest node before it
    /// that is taller, or the head.
    pub(crate) open spec fn parent_ok(&self, k: int) -> bool {
        self.node(k).parent == self.order@[self.parent_pos(k)]
    }

    /// Every node but the head has its parent.
    pub(crate) open spec fn parents_ok(&self) -> bool {
        forall|k: int| 1 <= k < self.len() ==> #[trigger] self.parent_ok(k)
    }

    /// The totals are the number and the user size of all items.
    pub(crate) open spec fn totals_ok(&self) -> bool {
        &&& self.num_items == self.first_item(self.len())
        &&& self.num_usercount == self.start(self.len())
    }

    /// Everything that holds of a list between edits, but for the parents.
    pub(crate) open spec fn inv_no_parents(&self) -> bool {
        &&& self.arena_ok()
        &&& self.head_ok()
        &&& self.shapes_ok()
        &&& self.links_ok()
        &&& self.totals_ok()
    }

    /// Everything that holds of a list between edits.
    pub(crate) open spec fn inv(&self) -> bool {
        &&& self.inv_no_parents()
        &&& self.parents_ok()
    }

    /// The list is well formed: its links, sizes, parents and totals agree
    /// with its items.
    pub closed spec fn wf(&self) -> bool {
        self.inv()
    }

    /// The items of the list, in order.
    pub closed spec fn view(&self) -> Seq<Item> {
        flatten(self.contents())
    }

    /// The number of items in each node of the list, in order.
    pub closed spec fn parts(&self) -> Seq<nat> {
        self.cnts().skip(1)
    }

    /// The number of levels in use.
    pub closed spec fn spec_height(&self) -> nat {
        self.nodes@[0].height as nat
    }

    /// What the public words for a list stand for.
    pub(crate) proof fn lemma_unfold(&self)
        ensures
            self.wf() == self.inv(),
            self@ == flatten(self.contents()),
            self.spec_height() == self.head_height(),
            self.parts() == self.cnts().skip(1),
    {
    }

    /// The items before a node are those of the nodes before it.
    pub(crate) proof fn lemma_parts(&self, k: int)
        requires
            self.inv(),
            1 <= k <= self.len(),
        ensures
            self.parts().len() == self.len() - 1,
            self.first_item(k) == prefix_sum(self.parts(), k - 1),
            k < self.len() ==> self.parts()[k - 1] == self.node(k).items@.len(),
    {
        crate::position::lemma_prefix_drop_first(self.cnts(), k);
        assert(self.cnts().drop_first() =~= self.cnts().skip(1));
    }

    /// An empty list.
    pub fn new() -> (list: Self)
        ensures
            list.wf(),
            list@ == Seq::<Item>::empty(),
            list.spec_height() == 1,
            list.parts() == Seq::<nat>::empty(),
            !list.seeded(),
    {
        let mut head = Node::<Item>::alloc_with_height(crate::node::MAX_HEIGHT_U8);
        head.height = 1;
        let mut nodes: Vec<Node<Item>> = Vec::new();
        nodes.push(head);
        let order: Ghost<Seq<usize>> = Ghost(Seq::<usize>::empty().push(HEAD));
        let list = SkipList::<Item, N> {
            num_items: 0,
            num_usercount: 0,
            rng: None,
            nodes,
            free: Vec::new(),
            order,
            _phantom: PhantomData,
        };
        proof {
            assert(list.order@ =~= seq![HEAD]);
            assert(list.nodes@[0].items@ =~= Seq::<Item>::empty());
            assert(list.contents()[0] =~= Seq::<Item>::empty());
            assert(list.contents() =~= seq![Seq::<Item>::empty()]);
            crate::model::lemma_flatten_one(Seq::<Item>::empty());
            assert(list.szs() =~= seq![0nat]);
            assert(list.cnts() =~= seq![0nat]);
            assert(list.cnts().skip(1) =~= Seq::<nat>::empty());
            assert(prefix_sum(list.szs(), 1) == prefix_sum(list.szs(), 0) + list.szs()[0]);
            assert(prefix_sum(list.cnts(), 1) == prefix_sum(list.cnts(), 0) + list.cnts()[0]);
            assert forall|k: int, i: int|
                0 <= k < list.len() && 0 <= i < list.node(k).height implies #[trigger] list.link_ok(
                k,
                i,
            ) by {
                assert(next_from(list.hs(), 1, i) == 1);
            }
        }
        list
    }

    /// Whether the list has a generator to draw node heights from. A list
    /// that has none gets one with a seed of its own when it first needs a
    /// height.
    pub closed spec fn seeded(&self) -> bool {
        self.rng is Some
    }

    /// Gives the list a generator made from `seed`, in place of the one it
    /// has, if any: the heights of the nodes to come depend on `seed` alone.
    /// The items and the nodes that hold them stay as they are.
    pub fn init_rng_from_seed(&mut self, seed: u64)
        requires
            old(self).wf(),
        ensures
            final(self).wf(),
            final(self).seeded(),
            final(self)@ == old(self)@,
            final(self).parts() == old(self).parts(),
            final(self).spec_height() == old(self).spec_height(),
            forall|marker: ItemMarker<Item>| final(self).marks(marker) == old(self).marks(marker),
    {
        self.rng = Some(seeded_rng(seed));
        proof {
            self.lemma_frame(old(self));
            assert forall|marker: ItemMarker<Item>| self.marks(marker) == old(self).marks(marker) by {
                self.lemma_marks_unfold(marker);
                old(self).lemma_marks_unfold(marker);
            }
        }
    }

    /// The user size of the list: the sum of the user sizes of its items.
    pub fn len_user(&self) -> (n: usize)
        requires
            self.wf(),
        ensures
            n == userlen(self@),
    {
        proof {
            crate::model::lemma_flatten_userlen(self.contents());
        }
        self.num_usercount
    }

    /// The number of items in the list.
    pub fn len_items(&self) -> (n: usize)
        requires
            self.wf(),
        ensures
            n == self@.len(),
    {
        proof {
            crate::model::lemma_flatten_len(self.contents());
        }
        self.num_items
    }

    /// The number of levels in use: the height of the tallest node that there
    /// has been, and at least 1.
    pub fn height(&self) -> (h: usize)
        requires
            self.wf(),
        ensures
            h == self.spec_height(),
            1 <= h <= MAX_HEIGHT,
    {
        self.nodes[0].height
    }
}

impl<Item: ListItem, N: NotifyTarget<Item>> SkipList<Item, N> {
    /// The nodes of the list, their order and the totals are those of `pre`.
    pub(crate) open spec fn same_list(&self, pre: &Self) -> bool {
        &&& self.order@ == pre.order@
        &&& self.num_items == pre.num_items
        &&& self.num_usercount == pre.num_usercount
        &&& self.nodes@.len() >= pre.nodes@.len()
        &&& forall|k: int| 0 <= k < pre.order@.len() ==> self.nodes@[(#[trigger] pre.order@[k]) as int] == pre.node(k)
    }

    /// A list with the same nodes in the same order is as well formed, and
    /// holds the same items.
    pub(crate) proof fn lemma_frame(&self, pre: &Self)
        requires
            pre.inv(),
            self.same_list(pre),
            self.arena_ok(),
        ensures
            self.inv(),
            self.hs() == pre.hs(),
            self.contents() == pre.contents(),
            self@ == pre@,
    {
        assert forall|k: int| 0 <= k < self.len() implies #[trigger] self.node(k) == pre.node(k) by {
            assert(self.nodes@[pre.order@[k] as int] == pre.node(k));
        }
        assert(self.nodes@[0] == pre.nodes@[0]) by {
            assert(self.node(0) == pre.node(0));
        }
        assert(self.contents() =~= pre.contents());
        assert(self.hs() =~= pre.hs());
        assert forall|k: int, i: int|
            0 <= k < self.len() && 0 <= i < self.node(k).height implies #[trigger] self.link_ok(k, i) by {
            assert(pre.link_ok(k, i));
            assert(self.node(k) == pre.node(k));
        }
        assert forall|k: int| 1 <= k < self.len() implies #[trigger] self.parent_ok(k) by {
            assert(pre.parent_ok(k));
            assert(self.node(k) == pre.node(k));
        }
        assert forall|k: int| 1 <= k < self.len() implies #[trigger] self.node_shape(k) by {
            assert(pre.node_shape(k));
            assert(self.node(k) == pre.node(k));
        }
    }

    /// Makes sure that there is a generator to draw node heights from.
    pub(crate) fn get_rng(&mut self)
        requires
            old(self).inv(),
        ensures
            final(self).inv(),
            final(self).rng is Some,
            final(self).same_list(old(self)),
            final(self).nodes@ == old(self).nodes@,
            final(self).free@ == old(self).free@,
            final(self)@ == old(self)@,
    {
        if self.rng.is_none() {
            self.rng = Some(seeded_rng(123));
        }
        proof {
            self.lemma_frame(old(self));
        }
    }

    /// A node out of the list to put `items` in: one that was freed before,
    /// or a new one.
    pub(crate) fn alloc_node(&mut self, height: u8, items: Vec<Item>) -> (id: usize)
        requires
            old(self).inv(),
            1 <= height <= MAX_HEIGHT,
        ensures
            final(self).inv(),
            final(self).same_list(old(self)),
            final(self).rng == old(self).rng,
            final(self)@ == old(self)@,
            id < final(self).nodes@.len(),
            !final(self).order@.contains(id),
            !final(self).free@.contains(id),
            final(self).nodes@[id as int].items@ == items@,
            final(self).nodes@[id as int].height == height,
            final(self).nodes@[id as int].parent == NULL,
            final(self).nodes@[id as int].nexts@.len() == height,
    {
        let mut node = Node::<Item>::alloc_with_height(height);
        node.items = items;
        let id = if self.free.len() > 0 {
            let ghost free0 = self.free@;
            let id = self.free.pop().unwrap();
            proof {
                assert(free0[free0.len() - 1] == id);
                assert(self.free@ =~= free0.take(free0.len() - 1));
                assert forall|j: int| 0 <= j < self.free@.len() implies self.free@[j] != id by {
                    assert(free0[j] != free0[free0.len() - 1]);
                }
            }
            self.nodes[id] = node;
            id
        } else {
            self.nodes.push(node);
            let id = self.nodes.len() - 1;
            proof {
                assert forall|k: int| 0 <= k < self.order@.len() implies self.order@[k] != id by {
                    assert(old(self).order@[k] < old(self).nodes@.len());
                }
            }
            id
        };
        proof {
            assert forall|k: int| 0 <= k < old(self).order@.len() implies self.nodes@[(
            #[trigger] old(self).order@[k]) as int] == old(self).node(k) by {
                assert(old(self).order@.contains(old(self).order@[k]));
            }
            self.lemma_frame(old(self));
        }
        id
    }
}

} // verus!
