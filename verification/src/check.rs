//! Walking a list to see that it is in order.

use vstd::prelude::*;
use crate::item::ListItem;
use crate::item::userlen;
use crate::item::userlen_of_slice;
use crate::model::next_from;
use crate::model::prev_from;
use crate::model::lemma_next_props;
use crate::model::lemma_next_unique;
use crate::model::lemma_prev_props;
use crate::model::lemma_prev_unique;
use crate::model::lemma_prefix_mono;
use crate::node::SkipEntry;
use crate::node::NotifyTarget;
use crate::node::HEAD;
use crate::node::NULL;
use crate::node::MAX_HEIGHT;
use crate::node::NODE_NUM_ITEMS;
use crate::skiplist::SkipList;

verus! {

impl<Item: ListItem, N: NotifyTarget<Item>> SkipList<Item, N> {
    /// Looks whether the end of node `n` is found again by its user position,
    /// and whether the way there that the parents give is the way that the
    /// links give.
    #[verifier::rlimit(20)]
    fn check_node_end(&self, n: usize, Ghost(k): Ghost<int>, num_usercount: usize, local_count: usize) -> (ok: bool)
        requires
            self.inv(),
            1 <= k < self.len(),
            self.order@[k] == n,
            num_usercount == self.start(k + 1),
            local_count == self.szs()[k],
        ensures
            ok,
    {
        proof {
            self.lemma_unfold();
            self.lemma_step(k);
            assert(self.node_shape(k));
            assert(self.start(k + 1) == self.start(k) + self.szs()[k]);
            lemma_prefix_mono(self.szs(), k + 1, self.len());
            crate::model::lemma_flatten_userlen(self.contents());
            crate::model::lemma_flatten_take_userlen(self.contents(), k + 1);
            crate::model::lemma_flatten_index(self.contents(), k, self.node(k).items@.len() as int);
            let its = self.node(k).items@;
            assert(its.take(its.len() as int) =~= its);
            crate::position::lemma_lands_on_boundary(self@, self.first_item(k + 1) as int);
            assert(self.order@.contains(n));
            if self.pos_of(n) != k {
                assert(self.order@[self.pos_of(n)] != self.order@[k]);
            }
        }
        let found = self.cursor_at_userpos(num_usercount);
        proof {
            crate::position::lemma_lands_at(
                self@,
                num_usercount as nat,
                self.cursor_index(&found.0),
                found.1 as nat,
            );
        }
        if found.1 != 0 || found.0.userpos != num_usercount {
            return false;
        }
        let mut normal = found.0;
        proof {
            self.lemma_cursor_lands(&normal);
            if normal.pos@ > k {
                lemma_prefix_mono(self.cnts(), k + 1, normal.pos@);
                assert(self.node_shape(k + 1));
                assert(self.first_item(k + 2) == self.first_item(k + 1) + self.cnts()[k + 1]);
                if normal.pos@ > k + 1 {
                    lemma_prefix_mono(self.cnts(), k + 2, normal.pos@);
                }
            }
            assert(normal.pos@ <= k);
        }
        while normal.here_ptr() != n
            invariant
                self.inv(),
                1 <= k < self.len(),
                self.order@[k] == n,
                self.cursor_ok(&normal),
                self.residual(&normal) == 0,
                normal.pos@ <= k,
                normal.userpos == num_usercount,
                num_usercount == self.start(k + 1),
            decreases k - normal.pos@,
        {
            proof {
                self.lemma_here(&normal);
                let c = normal.pos@;
                if c == k {
                    assert(false);
                }
                self.lemma_cursor_lands(&normal);
                crate::item::lemma_userlen_take_le(self.node(c).items@, normal.local_index as int);
                assert(self.start(c + 1) == self.start(c) + self.szs()[c]);
                lemma_prefix_mono(self.szs(), c + 1, k + 1);
            }
            normal.advance_node(self);
        }
        proof {
            self.lemma_here(&normal);
            assert(normal.pos@ == k) by {
                if normal.pos@ != k {
                    assert(self.order@[normal.pos@] != self.order@[k]);
                }
            }
            self.lemma_cursor_lands(&normal);
            crate::item::lemma_userlen_take_le(self.node(k).items@, normal.local_index as int);
        }
        let ghost landed = normal;
        normal.local_index = self.nodes[n].items.len();
        proof {
            let its = self.node(k).items@;
            assert(its.take(its.len() as int) =~= its);
            assert forall|l: int| 0 <= l < MAX_HEIGHT implies #[trigger] self.entry_ok(&normal, l) by {
                assert(self.entry_ok(&landed, l));
            }
        }
        let from_node = self.cursor_at_node(n, local_count, self.nodes[n].items.len());
        proof {
            assert(from_node.pos@ == k) by {
                assert(self.order@.contains(n));
                let w = self.pos_of(n);
                if w != k {
                    assert(self.order@[w] != self.order@[k]);
                }
            }
            self.lemma_cursor_unique(&normal, &from_node);
        }
        if !(normal == from_node) {
            return false;
        }
        true
    }

    /// Walks the list and looks at everything that the edits are to keep
    /// in order: the number of items in each node, the sizes that the links
    /// carry at every level, where the links lead, the parents, the totals,
    /// and that the end of each node is found again by its user position.
    /// The answer is whether all of it is as it should be, which it is for
    /// every well formed list.
    pub fn check(&self) -> (ok: bool)
        requires
            self.wf(),
        ensures
            ok,
    {
        proof {
            self.lemma_unfold();
            self.lemma_step(0);
        }
        let ghost hs = self.hs();
        let ghost len = self.len();
        let head_h = self.nodes[HEAD].height;
        if head_h < 1 || head_h > MAX_HEIGHT {
            return false;
        }
        if self.nodes[HEAD].parent != NULL || self.nodes[HEAD].items.len() != 0 {
            return false;
        }
        let mut prev: [usize; MAX_HEIGHT] = [HEAD;MAX_HEIGHT];
        let mut iter: [SkipEntry; MAX_HEIGHT] = [SkipEntry { node: HEAD, skip_usersize: 0 };MAX_HEIGHT];
        let mut i: usize = 0;
        while i < head_h
            invariant
                self.inv(),
                hs == self.hs(),
                len == self.len(),
                i <= head_h,
                head_h == self.head_height(),
                forall|l: int| 0 <= l < MAX_HEIGHT ==> #[trigger] prev[l] == HEAD,
                forall|l: int|
                    0 <= l < i ==> {
                        let j = next_from(hs, 1, l);
                        &&& (#[trigger] iter[l]).node == (if j < len {
                            self.order@[j]
                        } else {
                            NULL
                        })
                        &&& iter[l].skip_usersize == self.start(j)
                    },
            decreases head_h - i,
        {
            proof {
                assert(self.link_ok(0, i as int));
            }
            iter[i] = self.nodes[HEAD].nexts[i];
            i = i + 1;
        }
        let mut num_items: usize = 0;
        let mut num_usercount: usize = 0;
        let mut n = self.nodes[HEAD].nexts[0].node;
        let ghost mut k: int = 1;
        proof {
            assert(self.first_item(1) == self.first_item(0) + self.cnts()[0]);
            assert(self.start(1) == self.start(0) + self.szs()[0]);
            crate::item::lemma_userlen_empty::<Item>();
            assert(self.node(0).items@ =~= Seq::<Item>::empty());
        }
        while n != NULL
            invariant
                self.inv(),
                hs == self.hs(),
                len == self.len(),
                head_h == self.head_height(),
                1 <= k <= len,
                n == (if k < len {
                    self.order@[k]
                } else {
                    NULL
                }),
                num_items == self.first_item(k),
                num_usercount == self.start(k),
                forall|l: int| 0 <= l < head_h ==> #[trigger] prev[l] == self.order@[prev_from(hs, k - 1, l)],
                forall|l: int|
                    0 <= l < head_h ==> {
                        let j = next_from(hs, k, l);
                        &&& (#[trigger] iter[l]).node == (if j < len {
                            self.order@[j]
                        } else {
                            NULL
                        })
                        &&& iter[l].skip_usersize == self.start(j)
                    },
            decreases len - k,
        {
            let node_count = self.nodes.len();
            proof {
                assert(k < len);
                self.lemma_step(k);
                assert(self.node_shape(k));
                assert(self.parent_ok(k));
                assert(self.link_ok(k, 0));
                if k + 1 < len {
                    assert(self.node_shape(k + 1));
                }
                lemma_next_unique(hs, k + 1, 0, k + 1);
                assert(self.start(k + 1) == self.start(k) + self.szs()[k]);
                lemma_prefix_mono(self.szs(), k + 1, len);
                lemma_prefix_mono(self.cnts(), k + 1, len);
            }
            let node = &self.nodes[n];
            let height = node.height;
            if node.items.len() == 0 || node.items.len() > NODE_NUM_ITEMS || height < 1 || height > head_h {
                return false;
            }
            let local_count = userlen_of_slice(node.content_slice());
            if local_count != node.get_userlen() {
                return false;
            }
            let expect_parent = if height == head_h {
                HEAD
            } else {
                prev[height]
            };
            proof {
                if height == head_h {
                    assert forall|m: int| 0 < m <= k - 1 implies hs[m] <= height by {
                        assert(self.node_shape(m));
                    }
                    lemma_prev_unique(hs, k - 1, height as int, 0);
                }
            }
            if node.parent != expect_parent {
                return false;
            }
            let mut i: usize = 0;
            let ghost iter0 = iter;
            let ghost prev0 = prev;
            while i < height
                invariant
                    self.inv(),
                    hs == self.hs(),
                    len == self.len(),
                    head_h == self.head_height(),
                    1 <= k < len,
                    n == self.order@[k],
                    n < self.nodes@.len(),
                    height == self.node(k).height,
                    height == self.nodes@[n as int].nexts@.len(),
                    height == hs[k],
                    height <= head_h <= MAX_HEIGHT,
                    i <= height,
                    num_usercount == self.start(k),
                    forall|l: int| 0 <= l < head_h ==> #[trigger] prev0[l] == self.order@[prev_from(hs, k - 1, l)],
                    forall|l: int|
                        0 <= l < head_h ==> {
                            let j = next_from(hs, k, l);
                            &&& (#[trigger] iter0[l]).node == (if j < len {
                                self.order@[j]
                            } else {
                                NULL
                            })
                            &&& iter0[l].skip_usersize == self.start(j)
                        },
                    forall|l: int|
                        0 <= l < MAX_HEIGHT ==> #[trigger] prev[l] == if l < i {
                            n
                        } else {
                            prev0[l]
                        },
                    forall|l: int| i <= l < MAX_HEIGHT ==> #[trigger] iter[l] == iter0[l],
                    forall|l: int|
                        0 <= l < i ==> {
                            let j = next_from(hs, k + 1, l);
                            &&& (#[trigger] iter[l]).node == (if j < len {
                                self.order@[j]
                            } else {
                                NULL
                            })
                            &&& iter[l].skip_usersize == self.start(j)
                        },
                decreases height - i,
            {
                proof {
                    assert(self.link_ok(k, i as int));
                    lemma_next_unique(hs, k, i as int, k);
                    lemma_next_props(hs, k + 1, i as int);
                    lemma_prefix_mono(self.szs(), next_from(hs, k + 1, i as int), len);
                }
                if iter[i].node != n || iter[i].skip_usersize != num_usercount {
                    return false;
                }
                prev[i] = n;
                let next = self.nodes[n].nexts[i];
                iter[i] = SkipEntry { node: next.node, skip_usersize: iter[i].skip_usersize + next.skip_usersize };
                i = i + 1;
            }
            num_items = num_items + self.nodes[n].items.len();
            num_usercount = num_usercount + local_count;
            if !self.check_node_end(n, Ghost(k), num_usercount, local_count) {
                return false;
            }
            proof {
                assert forall|l: int| 0 <= l < head_h implies #[trigger] prev[l] == self.order@[prev_from(
                    hs,
                    k,
                    l,
                )] by {
                    if l >= height {
                        assert(prev0[l] == self.order@[prev_from(hs, k - 1, l)]);
                    }
                }
                assert forall|l: int| 0 <= l < head_h implies {
                    let j = next_from(hs, k + 1, l);
                    &&& (#[trigger] iter[l]).node == (if j < len {
                        self.order@[j]
                    } else {
                        NULL
                    })
                    &&& iter[l].skip_usersize == self.start(j)
                } by {
                    if l >= height {
                        assert(iter[l] == iter0[l]);
                    }
                }
            }
            n = self.nodes[n].nexts[0].node;
            proof {
                k = k + 1;
            }
        }
        let node_count = self.nodes.len();
        proof {
            if k < len {
                assert(self.order@[k] < node_count);
            }
        }
        let mut i: usize = 0;
        while i < head_h
            invariant
                self.inv(),
                hs == self.hs(),
                len == self.len(),
                k == len,
                head_h == self.head_height(),
                head_h <= MAX_HEIGHT,
                num_usercount == self.start(k),
                forall|l: int|
                    0 <= l < head_h ==> {
                        let j = next_from(hs, k, l);
                        &&& (#[trigger] iter[l]).node == (if j < len {
                            self.order@[j]
                        } else {
                            NULL
                        })
                        &&& iter[l].skip_usersize == self.start(j)
                    },
            decreases head_h - i,
        {
            if iter[i].node != NULL || iter[i].skip_usersize != num_usercount {
                return false;
            }
            i = i + 1;
        }
        self.num_items == num_items && self.num_usercount == num_usercount
    }
}

} // verus!
