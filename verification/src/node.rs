//! Nodes, skip entries, markers, the notification sink and node heights.

use vstd::prelude::*;
use std::marker::PhantomData;
use rand::rngs::SmallRng;
use rand::Rng;
use rand::SeedableRng;
use vstd::std_specs::cmp::PartialEqSpecImpl;
use crate::item::ListItem;

verus! {

/// The likelihood, out of 256, that a node has height `n + 1` instead of `n`.
pub const BIAS: u8 = 100;

/// The number of items in each node.
pub const NODE_NUM_ITEMS: usize = 100;

/// List operations move to linear time once the list is longer than about
/// `NODE_NUM_ITEMS * 2 ^ MAX_HEIGHT` items. Cursors grow linearly with this
/// number.
pub const MAX_HEIGHT: usize = 10;

pub const MAX_HEIGHT_U8: u8 = 10;

/// The handle that stands for "no node".
pub const NULL: usize = usize::MAX;

/// The handle of the head node, which every list has.
pub const HEAD: usize = 0;

/// A handle on the node that holds some item. It stays good for as long as
/// the node is neither freed nor emptied; the notification sink tells a
/// caller where items have gone.
pub struct ItemMarker<Item: ListItem> {
    pub(crate) ptr: usize,
    pub(crate) _phantom: PhantomData<Item>,
}

impl<Item: ListItem> Clone for ItemMarker<Item> {
    fn clone(&self) -> (r: Self)
        ensures
            r == *self,
    {
        *self
    }
}

impl<Item: ListItem> Copy for ItemMarker<Item> {

}

impl<Item: ListItem> PartialEq for ItemMarker<Item> {
    fn eq(&self, other: &Self) -> (r: bool) {
        self.ptr == other.ptr
    }
}

impl<Item: ListItem> PartialEqSpecImpl for ItemMarker<Item> {
    open spec fn obeys_eq_spec() -> bool {
        true
    }

    open spec fn eq_spec(&self, other: &Self) -> bool {
        self.handle() == other.handle()
    }
}

impl<Item: ListItem> Eq for ItemMarker<Item> {

}

impl<Item: ListItem> ItemMarker<Item> {
    /// The node handle inside the marker.
    pub closed spec fn handle(&self) -> usize {
        self.ptr
    }

    /// The marker that points at no node.
    pub fn null() -> (m: ItemMarker<Item>)
        ensures
            m.handle() == NULL,
    {
        ItemMarker { ptr: NULL, _phantom: PhantomData }
    }

    /// Whether the marker points at no node.
    pub fn is_null(self) -> (b: bool)
        ensures
            b == (self.handle() == NULL),
    {
        self.ptr == NULL
    }
}

/// The marker that points at the node with handle `node`.
pub(crate) open spec fn marker_of<Item: ListItem>(node: usize) -> ItemMarker<Item> {
    ItemMarker { ptr: node, _phantom: PhantomData }
}

impl<Item: ListItem> Default for ItemMarker<Item> {
    fn default() -> (m: Self)
        ensures
            m.handle() == NULL,
    {
        Self::null()
    }
}

/// Receives the items that an edit has just written, with a marker of the
/// node that now holds them.
pub trait NotifyTarget<Item: ListItem> {
    /// Whether what this sink has been told can be read off it. A sink that
    /// says so keeps `told`; of a sink that does not, nothing is known.
    open spec fn keeps_track() -> bool {
        false
    }

    /// What this sink has been told so far: items, and the marker of the
    /// node that held them then.
    open spec fn told(&self) -> Seq<(Seq<Item>, ItemMarker<Item>)> {
        Seq::empty()
    }

    /// Whether this sink looks at what it is sent. A sink that keeps track
    /// of what it is told does.
    fn notifications_used() -> (used: bool)
        ensures
            Self::keeps_track() ==> used,
    {
        true
    }

    fn notify(&mut self, items: &[Item], at_marker: ItemMarker<Item>)
        ensures
            Self::keeps_track() ==> final(self).told() == old(self).told().push((items@, at_marker)),
    ;
}

impl<Item: ListItem> NotifyTarget<Item> for () {
    fn notifications_used() -> bool
        returns
            false,
    {
        false
    }

    fn notify(&mut self, _items: &[Item], _at_marker: ItemMarker<Item>) {
    }
}

/// A sink that counts what it is told and keeps the marker that it was told
/// last.
pub struct LastMarker<Item: ListItem> {
    /// How many times the sink has been told something, as far as that can
    /// be counted.
    pub count: usize,
    /// The marker of the last note, or the null marker before the first.
    pub last: ItemMarker<Item>,
    /// Everything that the sink has been told, in order.
    pub log: Ghost<Seq<(Seq<Item>, ItemMarker<Item>)>>,
}

impl<Item: ListItem> LastMarker<Item> {
    /// A sink that has been told nothing.
    pub fn new() -> (sink: Self)
        ensures
            sink.told() == Seq::<(Seq<Item>, ItemMarker<Item>)>::empty(),
            sink.count == 0,
            sink.last.handle() == NULL,
    {
        LastMarker { count: 0, last: ItemMarker::null(), log: Ghost(Seq::empty()) }
    }
}

impl<Item: ListItem> NotifyTarget<Item> for LastMarker<Item> {
    open spec fn keeps_track() -> bool {
        true
    }

    open spec fn told(&self) -> Seq<(Seq<Item>, ItemMarker<Item>)> {
        self.log@
    }

    fn notify(&mut self, items: &[Item], at_marker: ItemMarker<Item>)
        ensures
            final(self).last == at_marker,
            final(self).count == if old(self).count < usize::MAX {
                old(self).count + 1
            } else {
                old(self).count as int
            },
    {
        if self.count < usize::MAX {
            self.count = self.count + 1;
        }
        self.last = at_marker;
        proof {
            self.log@ = self.log@.push((items@, at_marker));
        }
    }
}

/// One entry of a node's table of forward links, or of a cursor.
#[derive(Clone, Copy, PartialEq, Eq, Structural, Debug)]
pub struct SkipEntry {
    /// The node pointed to.
    pub node: usize,
    /// In a node: the user size between the start of this node and the start
    /// of the node pointed to, so entry 0 holds the size of the node itself.
    /// In a cursor: the user size between the start of `node` and the cursor.
    pub skip_usersize: usize,
}

impl SkipEntry {
    /// The entry that leads nowhere.
    pub fn new_null() -> (e: Self)
        ensures
            e.node == NULL,
            e.skip_usersize == 0,
    {
        SkipEntry { node: NULL, skip_usersize: 0 }
    }
}

/// A run of up to `NODE_NUM_ITEMS` items with its forward links.
pub struct Node<Item> {
    pub(crate) items: Vec<Item>,
    /// The number of levels of `nexts` in use.
    pub(crate) height: usize,
    /// The nearest node before this one that is taller than it.
    pub(crate) parent: usize,
    pub(crate) nexts: Vec<SkipEntry>,
}

impl<Item: ListItem> Node<Item> {
    /// A node of the given height with no items and no successors.
    pub(crate) fn alloc_with_height(height: u8) -> (node: Self)
        requires
            1 <= height <= MAX_HEIGHT,
        ensures
            node.items@.len() == 0,
            node.height == height,
            node.parent == NULL,
            node.nexts@.len() == height,
            forall|i: int| 0 <= i < height ==> node.nexts@[i] == (SkipEntry { node: NULL, skip_usersize: 0 }),
    {
        let mut nexts: Vec<SkipEntry> = Vec::new();
        let mut i: u8 = 0;
        while i < height
            invariant
                i <= height,
                nexts@.len() == i,
                forall|j: int| 0 <= j < i ==> nexts@[j] == (SkipEntry { node: NULL, skip_usersize: 0 }),
            decreases height - i,
        {
            nexts.push(SkipEntry::new_null());
            i = i + 1;
        }
        Node { items: Vec::new(), height: height as usize, parent: NULL, nexts }
    }

    /// The items of the node.
    pub(crate) fn content_slice(&self) -> (s: &[Item])
        ensures
            s@ == self.items@,
    {
        self.items.as_slice()
    }

    /// The link at level 0: to the next node, with the size of this node.
    pub(crate) fn first_skip_entry(&self) -> (e: &SkipEntry)
        requires
            self.nexts@.len() >= 1,
        ensures
            *e == self.nexts@[0],
    {
        &self.nexts[0]
    }

    /// The user size of the items of the node.
    pub(crate) fn get_userlen(&self) -> (n: usize)
        requires
            self.nexts@.len() >= 1,
        ensures
            n == self.nexts@[0].skip_usersize,
    {
        self.first_skip_entry().skip_usersize
    }

    /// The next node.
    pub(crate) fn get_next_ptr(&self) -> (n: usize)
        requires
            self.nexts@.len() >= 1,
        ensures
            n == self.nexts@[0].node,
    {
        self.first_skip_entry().node
    }
}

/// `rand::rngs::SmallRng`: the generator that node heights are drawn from.
/// Nothing of its state is looked into.
#[verifier::external_type_specification]
#[verifier::external_body]
pub struct ExSmallRng(SmallRng);

/// `rand::Rng::gen::<u8>` on a `SmallRng`: the next byte of the generator.
/// Nothing is claimed of the byte.
#[verifier::external_body]
pub(crate) fn random_byte(rng: &mut SmallRng) -> u8 {
    rng.gen::<u8>()
}

/// `rand::SeedableRng::seed_from_u64` for `SmallRng`: a generator whose
/// stream is fixed by `seed`. Nothing is claimed of the generator.
#[verifier::external_body]
pub(crate) fn seeded_rng(seed: u64) -> SmallRng {
    SmallRng::seed_from_u64(seed)
}

/// The height of a node for which `bytes` were drawn: 1, and one more for
/// each byte below `BIAS` that comes before the first byte that is not, up
/// to `MAX_HEIGHT`. Bytes behind those are not looked at.
pub fn height_for(bytes: &[u8]) -> (h: u8)
    ensures
        1 <= h <= MAX_HEIGHT,
        h - 1 <= bytes@.len(),
        forall|i: int| 0 <= i < h - 1 ==> bytes@[i] < BIAS,
        h < MAX_HEIGHT ==> h - 1 == bytes@.len() || bytes@[h - 1] >= BIAS,
{
    let mut h: u8 = 1;
    let mut seen: usize = 0;
    while h < MAX_HEIGHT_U8 && seen < bytes.len() && bytes[seen] < BIAS
        invariant
            1 <= h <= MAX_HEIGHT_U8,
            seen == h - 1,
            seen <= bytes@.len(),
            forall|i: int| 0 <= i < seen ==> bytes@[i] < BIAS,
        decreases MAX_HEIGHT_U8 - h,
    {
        h += 1;
        seen += 1;
    }
    h
}

/// Draws a node height: bytes are drawn from the generator for as long as
/// each makes the node taller, and the height is the one for those bytes.
pub(crate) fn random_height(rng: &mut SmallRng) -> (h: u8)
    ensures
        1 <= h <= MAX_HEIGHT,
{
    let mut drawn: Vec<u8> = Vec::new();
    let mut h: u8 = 1;
    let mut growing = true;
    while growing && h < MAX_HEIGHT_U8
        invariant
            1 <= h <= MAX_HEIGHT_U8,
            growing ==> drawn@.len() == h - 1,
            growing ==> forall|i: int| 0 <= i < h - 1 ==> drawn@[i] < BIAS,
        decreases MAX_HEIGHT_U8 - h + (if growing { 1int } else { 0int }),
    {
        drawn.push(random_byte(rng));
        let next = height_for(drawn.as_slice());
        growing = next > h;
        h = next;
    }
    h
}

} // verus!
