//! The element capability that the list is indexed by, and the measure of a
//! run of elements.

use vstd::prelude::*;

verus! {

/// An element of the list. Every element takes up a caller-defined amount of
/// space, its user size, and positions in the list are running sums of these.
pub trait ListItem: Sized {
    /// The user size of this element: 1, unless the type says otherwise.
    open spec fn usersize(&self) -> nat {
        1
    }

    /// Whether elements of this type can be cut in two by `split_item`:
    /// not, unless the type says otherwise.
    open spec fn can_split() -> bool {
        false
    }

    /// The two halves that `split_item` cuts this element into at `at`.
    open spec fn split_spec(&self, at: nat) -> (Self, Self) {
        vstd::pervasive::arbitrary()
    }

    /// Applications which have custom sizes (or do their own run-length
    /// encoding) report the size of an element here. Positions passed to the
    /// list are measured in this unit.
    fn get_usersize(&self) -> (size: usize)
        ensures
            size == self.usersize(),
    ;

    /// Cuts an element in two at user offset `at`, strictly inside it. Only
    /// needed when something is inserted in the middle of an element.
    fn split_item(&self, at: usize) -> (halves: (Self, Self))
        requires
            Self::can_split(),
            0 < at < self.usersize(),
        ensures
            halves == self.split_spec(at as nat),
            halves.0.usersize() == at,
            halves.0.usersize() + halves.1.usersize() == self.usersize(),
    ;
}

/// The sum of the user sizes of `s`.
pub open spec fn userlen<Item: ListItem>(s: Seq<Item>) -> nat
    decreases s.len(),
{
    if s.len() == 0 {
        0
    } else {
        userlen(s.drop_last()) + s.last().usersize()
    }
}

/// The total user size of a run of elements.
pub fn userlen_of_slice<Item: ListItem>(items: &[Item]) -> (total: usize)
    requires
        userlen(items@) <= usize::MAX,
    ensures
        total == userlen(items@),
{
    let mut acc: usize = 0;
    let mut i: usize = 0;
    while i < items.len()
        invariant
            i <= items.len(),
            acc == userlen(items@.take(i as int)),
            userlen(items@) <= usize::MAX,
        decreases items.len() - i,
    {
        proof {
            lemma_userlen_take_step(items@, i as int);
            lemma_userlen_take_le(items@, i as int + 1);
        }
        let size = items[i].get_usersize();
        acc = acc + size;
        i = i + 1;
    }
    proof {
        assert(items@.take(i as int) =~= items@);
    }
    acc
}

/// Nothing has no size.
pub proof fn lemma_userlen_empty<Item: ListItem>()
    ensures
        userlen(Seq::<Item>::empty()) == 0,
{
}

/// One item has its own size.
pub proof fn lemma_userlen_one<Item: ListItem>(x: Item)
    ensures
        userlen(seq![x]) == x.usersize(),
{
    assert(seq![x].drop_last() =~= Seq::<Item>::empty());
    assert(userlen(seq![x].drop_last()) == 0);
}

/// The size of two runs, one behind the other, is the sum of their sizes.
pub proof fn lemma_userlen_concat<Item: ListItem>(a: Seq<Item>, b: Seq<Item>)
    ensures
        userlen(a + b) == userlen(a) + userlen(b),
    decreases b.len(),
{
    if b.len() == 0 {
        assert(a + b =~= a);
    } else {
        assert((a + b).drop_last() =~= a + b.drop_last());
        assert((a + b).last() == b.last());
        lemma_userlen_concat(a, b.drop_last());
    }
}

/// One item more makes a run larger by the size of that item.
pub proof fn lemma_userlen_take_step<Item: ListItem>(s: Seq<Item>, k: int)
    requires
        0 <= k < s.len(),
    ensures
        userlen(s.take(k + 1)) == userlen(s.take(k)) + s[k].usersize(),
{
    assert(s.take(k + 1).drop_last() =~= s.take(k));
}

/// The size of a run is the size of its front and of its back together.
pub proof fn lemma_userlen_split<Item: ListItem>(s: Seq<Item>, k: int)
    requires
        0 <= k <= s.len(),
    ensures
        userlen(s) == userlen(s.take(k)) + userlen(s.skip(k)),
{
    assert(s =~= s.take(k) + s.skip(k));
    lemma_userlen_concat(s.take(k), s.skip(k));
}

/// The front of a run is no larger than the run.
pub proof fn lemma_userlen_take_le<Item: ListItem>(s: Seq<Item>, k: int)
    requires
        0 <= k <= s.len(),
    ensures
        userlen(s.take(k)) <= userlen(s),
{
    lemma_userlen_split(s, k);
}

/// A longer front is larger by the size of what it has more.
pub proof fn lemma_userlen_subrange<Item: ListItem>(s: Seq<Item>, a: int, b: int)
    requires
        0 <= a <= b <= s.len(),
    ensures
        userlen(s.take(b)) == userlen(s.take(a)) + userlen(s.subrange(a, b)),
{
    assert(s.take(b) =~= s.take(a) + s.subrange(a, b));
    lemma_userlen_concat(s.take(a), s.subrange(a, b));
}

/// Putting another item in place of one changes the size of the run, and
/// of every front that has the item, by the difference of their sizes.
pub proof fn lemma_userlen_update<Item: ListItem>(s: Seq<Item>, i: int, v: Item)
    requires
        0 <= i < s.len(),
    ensures
        userlen(s.update(i, v)) == userlen(s) - s[i].usersize() + v.usersize(),
        forall|k: int|
            i < k <= s.len() ==> #[trigger] userlen(s.update(i, v).take(k)) == userlen(s.take(k))
                - s[i].usersize() + v.usersize(),
        forall|k: int| 0 <= k <= i ==> #[trigger] userlen(s.update(i, v).take(k)) == userlen(s.take(k)),
{
    let t = s.update(i, v);
    assert forall|k: int| i < k <= s.len() implies #[trigger] userlen(t.take(k)) == userlen(s.take(k))
        - s[i].usersize() + v.usersize() by {
        lemma_userlen_subrange(s, i, i + 1);
        lemma_userlen_subrange(s, i + 1, k);
        lemma_userlen_subrange(t, i, i + 1);
        lemma_userlen_subrange(t, i + 1, k);
        assert(t.take(i) =~= s.take(i));
        assert(t.subrange(i + 1, k) =~= s.subrange(i + 1, k));
        assert(s.subrange(i, i + 1) =~= seq![s[i]]);
        assert(t.subrange(i, i + 1) =~= seq![v]);
        lemma_userlen_one(s[i]);
        lemma_userlen_one(v);
    }
    assert forall|k: int| 0 <= k <= i implies #[trigger] userlen(t.take(k)) == userlen(s.take(k)) by {
        assert(t.take(k) =~= s.take(k));
    }
    assert(t.take(s.len() as int) =~= t);
    assert(s.take(s.len() as int) =~= s);
}

} // verus!
