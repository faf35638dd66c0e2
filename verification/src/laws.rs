//! What edits made one after another come to.

use vstd::prelude::*;
use crate::item::ListItem;
use crate::item::userlen;
use crate::item::lemma_userlen_concat;
use crate::item::lemma_userlen_split;
use crate::item::lemma_userlen_subrange;
use crate::cursor::lands;
use crate::position::index_at;
use crate::position::offset_at;
use crate::position::inserted;
use crate::position::inserted_at;
use crate::position::deleted;
use crate::position::replaced;
use crate::position::lemma_lands_at;
use crate::position::lemma_lands_exists;
use crate::position::lemma_userlen_take_mono;

verus! {

/// Inserting items at a user position that falls between two items, and
/// then deleting as many items at the same position, gives back the
/// sequence there was, and with it its user size.
pub proof fn lemma_insert_then_delete<Item: ListItem>(s: Seq<Item>, p: nat, x: Seq<Item>)
    requires
        p <= userlen(s),
        offset_at(s, p) == 0,
    ensures
        offset_at(inserted_at(s, p, x), p) == 0,
        index_at(inserted_at(s, p, x), p) == index_at(s, p),
        deleted(inserted_at(s, p, x), index_at(inserted_at(s, p, x), p), x.len() as int) == s,
        userlen(deleted(inserted_at(s, p, x), index_at(inserted_at(s, p, x), p), x.len() as int)) == userlen(s),
{
    lemma_lands_exists(s, p);
    let i = index_at(s, p);
    let t = inserted(s, i, x);
    assert(t.take(i) =~= s.take(i));
    if i > 0 {
        assert(t.take(i - 1) =~= s.take(i - 1));
    }
    lemma_lands_at(t, p, i, 0);
    assert(deleted(t, i, x.len() as int) =~= s) by {
        assert(t.skip(i + x.len()) =~= s.skip(i));
    }
}

/// Inserting no items at a user position that falls between two items and
/// deleting no items there leaves the sequence as it is.
pub proof fn lemma_insert_nothing<Item: ListItem>(s: Seq<Item>, p: nat)
    requires
        p <= userlen(s),
        offset_at(s, p) == 0,
    ensures
        inserted_at(s, p, Seq::<Item>::empty()) == s,
        deleted(s, index_at(s, p), 0) == s,
{
    lemma_lands_exists(s, p);
    let i = index_at(s, p);
    assert(inserted(s, i, Seq::<Item>::empty()) =~= s);
    assert(deleted(s, i, 0) =~= s);
}

/// Replacing items by as many items of the same user size in all leaves
/// the user size of the sequence as it is, and the number of its items.
pub proof fn lemma_replace_same_size<Item: ListItem>(s: Seq<Item>, i: int, x: Seq<Item>)
    requires
        0 <= i,
        i + x.len() <= s.len(),
        userlen(x) == userlen(s.subrange(i, i + x.len())),
    ensures
        userlen(replaced(s, i, x.len() as int, x)) == userlen(s),
        replaced(s, i, x.len() as int, x).len() == s.len(),
        forall|k: int|
            0 <= k <= i ==> #[trigger] userlen(replaced(s, i, x.len() as int, x).take(k)) == userlen(s.take(k)),
        forall|k: int|
            i + x.len() <= k <= s.len() ==> #[trigger] userlen(replaced(s, i, x.len() as int, x).take(k))
                == userlen(s.take(k)),
{
    let m = x.len() as int;
    let t = replaced(s, i, m, x);
    lemma_userlen_concat(s.take(i), x);
    lemma_userlen_concat(s.take(i) + x, s.skip(i + m));
    lemma_userlen_split(s, i + m);
    lemma_userlen_subrange(s, i, i + m);
    assert forall|k: int| 0 <= k <= i implies #[trigger] userlen(t.take(k)) == userlen(s.take(k)) by {
        assert(t.take(k) =~= s.take(k));
    }
    assert forall|k: int| i + m <= k <= s.len() implies #[trigger] userlen(t.take(k)) == userlen(s.take(k)) by {
        assert(t.take(k) =~= s.take(i) + x + s.subrange(i + m, k));
        assert(s.take(k) =~= s.take(i) + s.subrange(i, i + m) + s.subrange(i + m, k));
        lemma_userlen_concat(s.take(i), x);
        lemma_userlen_concat(s.take(i) + x, s.subrange(i + m, k));
        lemma_userlen_concat(s.take(i), s.subrange(i, i + m));
        lemma_userlen_concat(s.take(i) + s.subrange(i, i + m), s.subrange(i + m, k));
    }
}

/// The user size of a sequence after an insertion is its user size before
/// and that of the new items together, also where an item is cut in two.
pub proof fn lemma_inserted_userlen<Item: ListItem>(s: Seq<Item>, p: nat, x: Seq<Item>)
    requires
        p <= userlen(s),
        offset_at(s, p) > 0 ==> {
            let halves = s[index_at(s, p)].split_spec(offset_at(s, p));
            halves.0.usersize() + halves.1.usersize() == s[index_at(s, p)].usersize()
        },
    ensures
        userlen(inserted_at(s, p, x)) == userlen(s) + userlen(x),
{
    lemma_lands_exists(s, p);
    let i = index_at(s, p);
    let o = offset_at(s, p);
    if o == 0 {
        lemma_userlen_concat(s.take(i), x);
        lemma_userlen_concat(s.take(i) + x, s.skip(i));
        lemma_userlen_split(s, i);
    } else {
        let halves = s[i].split_spec(o);
        let a = s.take(i);
        lemma_userlen_concat(a, seq![halves.0]);
        lemma_userlen_concat(a + seq![halves.0], x);
        lemma_userlen_concat(a + seq![halves.0] + x, seq![halves.1]);
        lemma_userlen_concat(a + seq![halves.0] + x + seq![halves.1], s.skip(i + 1));
        crate::item::lemma_userlen_one(halves.0);
        crate::item::lemma_userlen_one(halves.1);
        lemma_userlen_split(s, i);
        lemma_userlen_split(s, i + 1);
        crate::item::lemma_userlen_take_step(s, i);
    }
}

} // verus!
