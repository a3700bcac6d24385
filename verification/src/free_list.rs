//! The free-list index: putting a block at the head of the free list of its
//! class, and taking a block out of its list.

use vstd::prelude::*;
use crate::allocator::SpeedAllocator;
use crate::bits::bit32;
use crate::bits::bit64;
use crate::bits::lemma_bit32_ops;
use crate::bits::lemma_bit64_ops;
use crate::bits::lemma_zero32;
use crate::consistency::lemma_bounded_set;
use crate::mapping::BIN_COUNT;
use crate::mapping::BlockMap;
use crate::mapping::CLASS_COUNT;
use crate::mapping::class_index;
use crate::mapping::lemma_binmap_down_range;
use crate::mapping::SUB_BIN_COUNT;
use crate::model::PoolModel;

verus! {

impl SpeedAllocator {
    /// `post` is `pre` with the floating block `block` made the head of the
    /// free list of class `c`; the bitmaps and the count aside.
    #[verifier::opaque]
    pub(crate) open spec fn pushed(pre: &Self, post: &Self, block: usize, c: int) -> bool {
        &&& post.same_layout(pre)
        &&& post.lists@ == pre.lists@.update(c, pre.lists@[c].insert(0, block))
        &&& post.bins@ == pre.bins@.update(c, Some(block))
        &&& post.blocks@[block as int].prev_free.is_none()
        &&& post.blocks@[block as int].next_free == pre.bins@[c]
        &&& forall|i: int|
            0 <= i < pre.blocks@.len() && i != block ==> (#[trigger] post.blocks@[i]).next_free
                == pre.blocks@[i].next_free
        &&& forall|i: int|
            0 <= i < pre.blocks@.len() && i != block && pre.bins@[c] != Some(i as usize) ==> (
            #[trigger] post.blocks@[i]).prev_free == pre.blocks@[i].prev_free
        &&& forall|cur: usize|
            pre.bins@[c] == Some(cur) ==> (#[trigger] post.blocks@[cur as int]).prev_free == Some(
                block,
            )
    }

    /// The free lists are in order after a floating block has become a head.
    #[verifier::rlimit(40)]
    pub(crate) proof fn lemma_pushed_lists(pre: &Self, post: &Self, block: usize, c: int, floating: Set<usize>)
        requires
            pre.inv_shape(),
            pre.inv_chain(),
            pre.inv_lists(floating),
            floating.contains(block),
            block < pre.blocks@.len(),
            0 <= c < CLASS_COUNT,
            c == class_index(pre.blocks@[block as int].size),
            Self::pushed(pre, post, block, c),
        ensures
            post.inv_lists(floating.remove(block)),
    {
        reveal(SpeedAllocator::inv_lists);
        reveal(SpeedAllocator::same_layout);
        reveal(SpeedAllocator::pushed);
        let f2 = floating.remove(block);
        let old_list = pre.lists@[c];
        let new_list = post.lists@[c];
        let lists = post.lists@;
        assert(new_list == old_list.insert(0, block));
        assert(pre.free_at(block));
        pre.lemma_floating_unlisted(floating, block);
        assert(pre.head_ok(c));
        assert forall|i: usize| post.free_at(i) == pre.free_at(i) by {
            if i < post.blocks@.len() {
                let b = post.blocks@[i as int];
            }
        }
        assert forall|i: usize| i < post.blocks@.len() implies post.blocks@[i as int].size
            == pre.blocks@[i as int].size by {
            let b = post.blocks@[i as int];
        }
        assert forall|d: int, j: int|
            0 <= d < CLASS_COUNT && 0 <= j < lists[d].len() implies post.listed_ok(
            d,
            #[trigger] lists[d][j],
            f2,
        ) by {
            if d == c {
                if j > 0 {
                    assert(new_list[j] == old_list[j - 1]);
                    assert(pre.listed_ok(c, old_list[j - 1], floating));
                }
            } else {
                assert(pre.listed_ok(d, pre.lists@[d][j], floating));
            }
        }
        assert forall|d: int, j1: int, j2: int|
            0 <= d < CLASS_COUNT && 0 <= j1 < j2 < lists[d].len() implies #[trigger] lists[d][j1]
            != #[trigger] lists[d][j2] by {
            if d == c {
                assert(new_list[j2] == old_list[j2 - 1]);
                if j1 > 0 {
                    assert(new_list[j1] == old_list[j1 - 1]);
                }
            } else {
                assert(lists[d][j1] == pre.lists@[d][j1]);
                assert(lists[d][j2] == pre.lists@[d][j2]);
            }
        }
        assert forall|d: int| 0 <= d < CLASS_COUNT implies #[trigger] post.head_ok(d) by {
            assert(pre.head_ok(d));
            if d == c {
                assert(new_list[0] == block);
                if old_list.len() > 0 {
                    assert(new_list.last() == old_list.last());
                    assert(new_list.last() == old_list[old_list.len() - 1]);
                    let b = post.blocks@[old_list.last() as int];
                    assert(pre.listed_ok(c, old_list[old_list.len() - 1], floating));
                } else {
                    assert(new_list.last() == block);
                }
            } else {
                let list = pre.lists@[d];
                if list.len() > 0 {
                    assert(pre.listed_ok(d, list[0], floating));
                    assert(pre.listed_ok(d, list[list.len() - 1], floating));
                    if old_list.len() > 0 {
                        assert(pre.listed_ok(c, old_list[0], floating));
                    }
                    let a = post.blocks@[list[0] as int];
                    let b = post.blocks@[list.last() as int];
                }
            }
        }
        assert forall|d: int, j: int, j2: int|
            0 <= d < CLASS_COUNT && 0 <= j && j2 == j + 1 && j2 < lists[d].len()
            implies post.free_linked(#[trigger] lists[d][j], #[trigger] lists[d][j2]) by {
            if d == c {
                assert(new_list[j2] == old_list[j2 - 1]);
                assert(pre.listed_ok(c, old_list[j2 - 1], floating));
                let b = post.blocks@[old_list[j2 - 1] as int];
                if j > 0 {
                    assert(new_list[j] == old_list[j - 1]);
                    assert(pre.listed_ok(c, old_list[j - 1], floating));
                    assert(pre.free_linked(old_list[j - 1], old_list[j2 - 1]));
                    let a = post.blocks@[old_list[j - 1] as int];
                    assert(old_list[0] != old_list[j2 - 1]);
                }
            } else {
                let list = pre.lists@[d];
                assert(pre.free_linked(list[j], list[j2]));
                assert(pre.listed_ok(d, list[j], floating));
                assert(pre.listed_ok(d, list[j2], floating));
                if old_list.len() > 0 {
                    assert(pre.listed_ok(c, old_list[0], floating));
                }
                let a = post.blocks@[list[j] as int];
                let b = post.blocks@[list[j2] as int];
            }
        }
        assert forall|i: usize| #[trigger] post.free_at(i) && !f2.contains(i) implies lists[class_index(
            post.blocks@[i as int].size,
        )].contains(i) by {
            let d = class_index(post.blocks@[i as int].size);
            if i == block {
                assert(new_list[0] == block);
            } else {
                assert(pre.free_at(i));
                pre.lemma_live_block(i);
                assert(pre.lists@[d].contains(i));
                let j = choose|j: int| 0 <= j < pre.lists@[d].len() && pre.lists@[d][j] == i;
                assert(pre.listed_ok(d, pre.lists@[d][j], floating));
                if d == c {
                    assert(new_list[j + 1] == i);
                } else {
                    assert(lists[d][j] == i);
                }
            }
        }
    }

    /// The bitmaps are in order after the bits of a class have been set for a
    /// list that is not empty.
    #[verifier::rlimit(40)]
    pub(crate) proof fn lemma_pushed_bitmaps(pre: &Self, post: &Self, bin: int, sub: int)
        requires
            pre.inv_shape(),
            post.inv_shape(),
            pre.inv_bitmaps(),
            0 <= bin < BIN_COUNT,
            0 <= sub < 32,
            post.lists@.len() == pre.lists@.len(),
            forall|d: int|
                0 <= d < CLASS_COUNT && d != bin * 32 + sub ==> #[trigger] post.lists@[d]
                    == pre.lists@[d],
            post.lists@[bin * 32 + sub].len() > 0,
            post.bin_bitmap == pre.bin_bitmap | (1u64 << (bin as u64)),
            post.sub_bin_bitmap@ == pre.sub_bin_bitmap@.update(
                bin,
                pre.sub_bin_bitmap@[bin] | (1u32 << (sub as u32)),
            ),
        ensures
            post.inv_bitmaps(),
    {
        reveal(SpeedAllocator::inv_bitmaps);
        let word = pre.sub_bin_bitmap@[bin];
        lemma_bit64_ops(pre.bin_bitmap, bin as u64);
        lemma_bit32_ops(word, sub as u32);
        lemma_zero32(post.sub_bin_bitmap@[bin]);
        assert(bit32(post.sub_bin_bitmap@[bin], sub));
        assert forall|i: int| 0 <= i < BIN_COUNT implies (#[trigger] bit64(post.bin_bitmap, i)
            <==> post.sub_bin_bitmap@[i] != 0) by {
            assert(bit64(pre.bin_bitmap, i) <==> pre.sub_bin_bitmap@[i] != 0);
        }
        assert forall|i: int| BIN_COUNT <= i < 64 implies !#[trigger] bit64(post.bin_bitmap, i) by {
            assert(!bit64(pre.bin_bitmap, i));
        }
        assert forall|i: int, j: int| 0 <= i < BIN_COUNT && 0 <= j < 32 implies (#[trigger] bit32(
            post.sub_bin_bitmap@[i],
            j,
        ) <==> post.lists@[i * 32 + j].len() > 0) by {
            assert(bit32(pre.sub_bin_bitmap@[i], j) <==> pre.lists@[i * 32 + j].len() > 0);
            if i != bin || j != sub {
                assert(post.lists@[i * 32 + j] == pre.lists@[i * 32 + j]);
            }
        }
    }

    /// Makes a floating free block the head of the free list of its class.
    #[verifier::rlimit(40)]
    pub(crate) fn insert_free_block(&mut self, block: usize, Ghost(floating): Ghost<Set<usize>>)
        requires
            old(self).inv(floating),
            floating.contains(block),
            old(self).lonely(block, floating.remove(block)),
        ensures
            final(self).inv(floating.remove(block)),
            final(self).same_layout(old(self)),
            final(self).lists@ == PoolModel::lists_with(
                old(self).lists@,
                class_index(old(self).blocks@[block as int].size),
                block,
            ),
    {
        proof {
            reveal(SpeedAllocator::inv_lists);
            reveal(SpeedAllocator::inv_coalesced);
            reveal(SpeedAllocator::lonely);
            reveal(SpeedAllocator::same_layout);
            reveal(SpeedAllocator::pushed);
        }
        let ghost pre = *self;
        let ghost f2 = floating.remove(block);
        proof {
            assert(self.free_at(block));
            self.lemma_live_block(block);
        }
        let size = self.blocks[block].size;
        let map = self.binmap_down(size);
        proof {
            lemma_binmap_down_range(size);
        }
        let idx: usize = map.bin_idx * SUB_BIN_COUNT + map.sub_bin_idx;
        let current = self.bins[idx];
        let mut record = self.blocks[block];
        record.prev_free = None;
        record.next_free = current;
        self.blocks.set(block, record);
        if let Some(cur) = current {
            proof {
                assert(pre.head_ok(idx as int));
                assert(pre.listed_ok(idx as int, pre.lists@[idx as int][0], floating));
            }
            let mut head = self.blocks[cur];
            head.prev_free = Some(block);
            self.blocks.set(cur, head);
        }
        self.bins.set(idx, Some(block));
        self.bin_bitmap = self.bin_bitmap | (1u64 << (map.bin_idx as u64));
        let word: u32 = self.sub_bin_bitmap[map.bin_idx];
        self.sub_bin_bitmap.set(map.bin_idx, word | (1u32 << (map.sub_bin_idx as u32)));
        self.lists = Ghost(self.lists@.update(idx as int, self.lists@[idx as int].insert(0, block)));
        proof {
            lemma_bounded_set(pre.listed_ids(floating), self.blocks.len());
            lemma_bounded_set(pre.listed_ids(floating).insert(block), self.blocks.len());
        }
        self.num_free_block = self.num_free_block + 1;
        proof {
            assert(self.same_layout(&pre));
            assert(Self::pushed(&pre, self, block, idx as int));
            Self::lemma_same_layout(&pre, self, floating);
            Self::lemma_pushed_lists(&pre, self, block, idx as int, floating);
            Self::lemma_pushed_bitmaps(&pre, self, map.bin_idx as int, map.sub_bin_idx as int);
            assert(self.listed_ids(f2) =~= pre.listed_ids(floating).insert(block));
            assert forall|k: int, k2: int|
                0 <= k && k2 == k + 1 && k2 < self.chain@.len() implies !(self.free_at(
                #[trigger] self.chain@[k],
            ) && self.free_at(#[trigger] self.chain@[k2]) && !f2.contains(self.chain@[k])
                && !f2.contains(self.chain@[k2])) by {
                assert(pre.chain@[k] == self.chain@[k] && pre.chain@[k2] == self.chain@[k2]);
            }
        }
    }

    /// `post` is `pre` with the block at place `j` of the free list of class
    /// `c` taken out; the bitmaps and the count aside.
    #[verifier::opaque]
    pub(crate) open spec fn popped(pre: &Self, post: &Self, block: usize, c: int, j: int) -> bool {
        let next = pre.blocks@[block as int].next_free;
        let prev = pre.blocks@[block as int].prev_free;
        &&& post.same_layout(pre)
        &&& post.lists@ == pre.lists@.update(c, pre.lists@[c].remove(j))
        &&& post.bins@ == (if j == 0 {
            pre.bins@.update(c, next)
        } else {
            pre.bins@
        })
        &&& forall|i: int|
            0 <= i < pre.blocks@.len() && prev != Some(i as usize) ==> (#[trigger] post.blocks@[i]).next_free
                == pre.blocks@[i].next_free
        &&& forall|i: int|
            0 <= i < pre.blocks@.len() && next != Some(i as usize) ==> (#[trigger] post.blocks@[i]).prev_free
                == pre.blocks@[i].prev_free
        &&& forall|n: usize| next == Some(n) ==> (#[trigger] post.blocks@[n as int]).prev_free == prev
        &&& forall|p: usize| prev == Some(p) ==> (#[trigger] post.blocks@[p as int]).next_free == next
    }

    /// After a block has left its free list, every list still holds free
    /// blocks of its class, each once, and begins at its head.
    #[verifier::rlimit(40)]
    pub(crate) proof fn lemma_popped_heads(
        pre: &Self,
        post: &Self,
        block: usize,
        c: int,
        j: int,
        floating: Set<usize>,
    )
        requires
            pre.inv_shape(),
            pre.inv_chain(),
            pre.inv_lists(floating),
            pre.free_at(block),
            !floating.contains(block),
            c == class_index(pre.blocks@[block as int].size),
            0 <= c < CLASS_COUNT,
            0 <= j < pre.lists@[c].len(),
            pre.lists@[c][j] == block,
            Self::popped(pre, post, block, c, j),
        ensures
            forall|d: int, x: int|
                0 <= d < CLASS_COUNT && 0 <= x < post.lists@[d].len() ==> post.listed_ok(
                    d,
                    #[trigger] post.lists@[d][x],
                    floating.insert(block),
                ),
            forall|d: int, x1: int, x2: int|
                0 <= d < CLASS_COUNT && 0 <= x1 < x2 < post.lists@[d].len()
                    ==> #[trigger] post.lists@[d][x1] != #[trigger] post.lists@[d][x2],
            forall|d: int| 0 <= d < CLASS_COUNT ==> #[trigger] post.head_ok(d),
    {
        reveal(SpeedAllocator::inv_lists);
        reveal(SpeedAllocator::same_layout);
        reveal(SpeedAllocator::popped);
        let f2 = floating.insert(block);
        let old_list = pre.lists@[c];
        let new_list = post.lists@[c];
        let lists = post.lists@;
        let n = old_list.len() as int;
        assert(new_list == old_list.remove(j));
        let jj = pre.lemma_listed(block, floating);
        assert(jj == j) by {
            if jj < j {
                assert(old_list[jj] != old_list[j]);
            }
            if j < jj {
                assert(old_list[j] != old_list[jj]);
            }
        }
        assert(pre.head_ok(c));
        assert forall|i: usize| post.free_at(i) == pre.free_at(i) by {
            if i < post.blocks@.len() {
                let b = post.blocks@[i as int];
            }
        }
        assert forall|i: usize| i < post.blocks@.len() implies post.blocks@[i as int].size
            == pre.blocks@[i as int].size by {
            let b = post.blocks@[i as int];
        }
        assert forall|x: int| 0 <= x < new_list.len() implies #[trigger] new_list[x] == old_list[if x
            < j {
            x
        } else {
            x + 1
        }] && new_list[x] != block && pre.listed_ok(c, new_list[x], floating) by {
            let y = if x < j {
                x
            } else {
                x + 1
            };
            assert(pre.listed_ok(c, old_list[y], floating));
            if y < j {
                assert(old_list[y] != old_list[j]);
            } else {
                assert(old_list[j] != old_list[y]);
            }
        }
        assert forall|d: int, x: int|
            0 <= d < CLASS_COUNT && 0 <= x < lists[d].len() implies post.listed_ok(
            d,
            #[trigger] lists[d][x],
            f2,
        ) by {
            if d == c {
                assert(pre.listed_ok(c, new_list[x], floating));
            } else {
                assert(pre.listed_ok(d, pre.lists@[d][x], floating));
            }
        }
        assert forall|d: int, x1: int, x2: int|
            0 <= d < CLASS_COUNT && 0 <= x1 < x2 < lists[d].len() implies #[trigger] lists[d][x1]
            != #[trigger] lists[d][x2] by {
            if d == c {
                let y1 = if x1 < j {
                    x1
                } else {
                    x1 + 1
                };
                let y2 = if x2 < j {
                    x2
                } else {
                    x2 + 1
                };
                assert(new_list[x1] == old_list[y1]);
                assert(new_list[x2] == old_list[y2]);
                assert(old_list[y1] != old_list[y2]);
            } else {
                assert(lists[d][x1] == pre.lists@[d][x1]);
                assert(lists[d][x2] == pre.lists@[d][x2]);
            }
        }
        assert forall|d: int| 0 <= d < CLASS_COUNT implies #[trigger] post.head_ok(d) by {
            assert(pre.head_ok(d));
            if d == c {
                if new_list.len() > 0 {
                    let h = new_list[0];
                    let l = new_list[new_list.len() - 1];
                    assert(new_list.last() == l);
                    assert(pre.listed_ok(c, h, floating));
                    assert(pre.listed_ok(c, l, floating));
                    let hb = post.blocks@[h as int];
                    let lb = post.blocks@[l as int];
                    if j == 0 {
                        assert(h == old_list[1]);
                    } else {
                        assert(h == old_list[0]);
                        if j < n - 1 {
                            assert(old_list[0] != old_list[j + 1]);
                        }
                    }
                    if j == n - 1 {
                        assert(l == old_list[n - 2]);
                    } else {
                        assert(l == old_list[n - 1]);
                        assert(old_list.last() == old_list[n - 1]);
                        if j > 0 {
                            assert(old_list[j - 1] != old_list[n - 1]);
                        }
                    }
                }
            } else {
                let list = pre.lists@[d];
                if list.len() > 0 {
                    assert(pre.listed_ok(d, list[0], floating));
                    assert(pre.listed_ok(d, list[list.len() - 1], floating));
                    if j > 0 {
                        assert(pre.listed_ok(c, old_list[j - 1], floating));
                    }
                    if j < n - 1 {
                        assert(pre.listed_ok(c, old_list[j + 1], floating));
                    }
                    let a = post.blocks@[list[0] as int];
                    let b = post.blocks@[list.last() as int];
                }
            }
        }
    }

    /// After a block has left its free list, the blocks of every list are
    /// still linked in list order.
    #[verifier::rlimit(40)]
    pub(crate) proof fn lemma_popped_links(
        pre: &Self,
        post: &Self,
        block: usize,
        c: int,
        j: int,
        floating: Set<usize>,
    )
        requires
            pre.inv_shape(),
            pre.inv_chain(),
            pre.inv_lists(floating),
            pre.free_at(block),
            !floating.contains(block),
            c == class_index(pre.blocks@[block as int].size),
            0 <= c < CLASS_COUNT,
            0 <= j < pre.lists@[c].len(),
            pre.lists@[c][j] == block,
            Self::popped(pre, post, block, c, j),
        ensures
            forall|d: int, x: int, x2: int|
                0 <= d < CLASS_COUNT && 0 <= x && x2 == x + 1 && x2 < post.lists@[d].len()
                    ==> post.free_linked(#[trigger] post.lists@[d][x], #[trigger] post.lists@[d][x2]),
    {
        reveal(SpeedAllocator::inv_lists);
        reveal(SpeedAllocator::same_layout);
        reveal(SpeedAllocator::popped);
        let f2 = floating.insert(block);
        let old_list = pre.lists@[c];
        let new_list = post.lists@[c];
        let lists = post.lists@;
        let n = old_list.len() as int;
        assert(new_list == old_list.remove(j));
        let jj = pre.lemma_listed(block, floating);
        assert(jj == j) by {
            if jj < j {
                assert(old_list[jj] != old_list[j]);
            }
            if j < jj {
                assert(old_list[j] != old_list[jj]);
            }
        }
        assert(pre.head_ok(c));
        assert forall|i: usize| post.free_at(i) == pre.free_at(i) by {
            if i < post.blocks@.len() {
                let b = post.blocks@[i as int];
            }
        }
        assert forall|i: usize| i < post.blocks@.len() implies post.blocks@[i as int].size
            == pre.blocks@[i as int].size by {
            let b = post.blocks@[i as int];
        }
        assert forall|x: int| 0 <= x < new_list.len() implies #[trigger] new_list[x] == old_list[if x
            < j {
            x
        } else {
            x + 1
        }] && new_list[x] != block && pre.listed_ok(c, new_list[x], floating) by {
            let y = if x < j {
                x
            } else {
                x + 1
            };
            assert(pre.listed_ok(c, old_list[y], floating));
            if y < j {
                assert(old_list[y] != old_list[j]);
            } else {
                assert(old_list[j] != old_list[y]);
            }
        }
        assert forall|d: int, x: int, x2: int|
            0 <= d < CLASS_COUNT && 0 <= x && x2 == x + 1 && x2 < lists[d].len()
            implies post.free_linked(#[trigger] lists[d][x], #[trigger] lists[d][x2]) by {
            if d == c {
                let y = if x < j {
                    x
                } else {
                    x + 1
                };
                let y2 = if x2 < j {
                    x2
                } else {
                    x2 + 1
                };
                assert(new_list[x] == old_list[y]);
                assert(new_list[x2] == old_list[y2]);
                assert(pre.listed_ok(c, old_list[y], floating));
                assert(pre.listed_ok(c, old_list[y2], floating));
                let a = post.blocks@[old_list[y] as int];
                let b = post.blocks@[old_list[y2] as int];
                if y2 == y + 1 {
                    assert(pre.free_linked(old_list[y], old_list[y2]));
                    if j > 0 {
                        assert(y != j - 1);
                        if y < j - 1 {
                            assert(old_list[y] != old_list[j - 1]);
                        } else {
                            assert(old_list[j - 1] != old_list[y]);
                        }
                    }
                    if j < n - 1 {
                        assert(y2 != j + 1);
                        if y2 < j + 1 {
                            assert(old_list[y2] != old_list[j + 1]);
                        } else {
                            assert(old_list[j + 1] != old_list[y2]);
                        }
                    }
                } else {
                    assert(y == j - 1 && y2 == j + 1);
                }
            } else {
                let list = pre.lists@[d];
                assert(pre.free_linked(list[x], list[x2]));
                assert(pre.listed_ok(d, list[x], floating));
                assert(pre.listed_ok(d, list[x2], floating));
                if j > 0 {
                    assert(pre.listed_ok(c, old_list[j - 1], floating));
                }
                if j < n - 1 {
                    assert(pre.listed_ok(c, old_list[j + 1], floating));
                }
                let a = post.blocks@[list[x] as int];
                let b = post.blocks@[list[x2] as int];
            }
        }
    }

    /// After a block has left its free list, every free block that does not
    /// float is still in the list of its class.
    #[verifier::rlimit(40)]
    pub(crate) proof fn lemma_popped_cover(
        pre: &Self,
        post: &Self,
        block: usize,
        c: int,
        j: int,
        floating: Set<usize>,
    )
        requires
            pre.inv_shape(),
            pre.inv_chain(),
            pre.inv_lists(floating),
            pre.free_at(block),
            !floating.contains(block),
            c == class_index(pre.blocks@[block as int].size),
            0 <= c < CLASS_COUNT,
            0 <= j < pre.lists@[c].len(),
            pre.lists@[c][j] == block,
            Self::popped(pre, post, block, c, j),
        ensures
            forall|i: usize|
                #[trigger] post.free_at(i) && !floating.insert(block).contains(i)
                    ==> post.lists@[class_index(post.blocks@[i as int].size)].contains(i),
            forall|i: usize| floating.insert(block).contains(i) ==> #[trigger] post.free_at(i),
    {
        reveal(SpeedAllocator::inv_lists);
        reveal(SpeedAllocator::same_layout);
        reveal(SpeedAllocator::popped);
        let f2 = floating.insert(block);
        let old_list = pre.lists@[c];
        let new_list = post.lists@[c];
        let lists = post.lists@;
        let n = old_list.len() as int;
        assert(new_list == old_list.remove(j));
        let jj = pre.lemma_listed(block, floating);
        assert(jj == j) by {
            if jj < j {
                assert(old_list[jj] != old_list[j]);
            }
            if j < jj {
                assert(old_list[j] != old_list[jj]);
            }
        }
        assert(pre.head_ok(c));
        assert forall|i: usize| post.free_at(i) == pre.free_at(i) by {
            if i < post.blocks@.len() {
                let b = post.blocks@[i as int];
            }
        }
        assert forall|i: usize| i < post.blocks@.len() implies post.blocks@[i as int].size
            == pre.blocks@[i as int].size by {
            let b = post.blocks@[i as int];
        }
        assert forall|x: int| 0 <= x < new_list.len() implies #[trigger] new_list[x] == old_list[if x
            < j {
            x
        } else {
            x + 1
        }] && new_list[x] != block && pre.listed_ok(c, new_list[x], floating) by {
            let y = if x < j {
                x
            } else {
                x + 1
            };
            assert(pre.listed_ok(c, old_list[y], floating));
            if y < j {
                assert(old_list[y] != old_list[j]);
            } else {
                assert(old_list[j] != old_list[y]);
            }
        }
        assert forall|i: usize| #[trigger] post.free_at(i) && !f2.contains(i) implies lists[class_index(
            post.blocks@[i as int].size,
        )].contains(i) by {
            let d = class_index(post.blocks@[i as int].size);
            assert(pre.free_at(i));
            pre.lemma_live_block(i);
            assert(pre.lists@[d].contains(i));
            let y = choose|y: int| 0 <= y < pre.lists@[d].len() && pre.lists@[d][y] == i;
            if d == c {
                if y < j {
                    assert(new_list[y] == i);
                } else {
                    assert(new_list[y - 1] == i);
                }
            } else {
                assert(lists[d][y] == i);
            }
        }
    }

    /// The free lists are in order after a block has left its list.
    pub(crate) proof fn lemma_popped_lists(
        pre: &Self,
        post: &Self,
        block: usize,
        c: int,
        j: int,
        floating: Set<usize>,
    )
        requires
            pre.inv_shape(),
            pre.inv_chain(),
            pre.inv_lists(floating),
            pre.free_at(block),
            !floating.contains(block),
            c == class_index(pre.blocks@[block as int].size),
            0 <= c < CLASS_COUNT,
            0 <= j < pre.lists@[c].len(),
            pre.lists@[c][j] == block,
            Self::popped(pre, post, block, c, j),
        ensures
            post.inv_lists(floating.insert(block)),
    {
        reveal(SpeedAllocator::inv_lists);
        Self::lemma_popped_heads(pre, post, block, c, j, floating);
        Self::lemma_popped_links(pre, post, block, c, j, floating);
        Self::lemma_popped_cover(pre, post, block, c, j, floating);
    }

    /// The bitmaps are in order after the bits of a class have been cleared
    /// where its list has become empty.
    #[verifier::rlimit(40)]
    pub(crate) proof fn lemma_popped_bitmaps(pre: &Self, post: &Self, bin: int, sub: int)
        requires
            pre.inv_shape(),
            post.inv_shape(),
            pre.inv_bitmaps(),
            0 <= bin < BIN_COUNT,
            0 <= sub < 32,
            post.lists@.len() == pre.lists@.len(),
            forall|d: int|
                0 <= d < CLASS_COUNT && d != bin * 32 + sub ==> #[trigger] post.lists@[d]
                    == pre.lists@[d],
            pre.lists@[bin * 32 + sub].len() > 0,
            post.lists@[bin * 32 + sub].len() > 0 ==> post.bin_bitmap == pre.bin_bitmap
                && post.sub_bin_bitmap@ == pre.sub_bin_bitmap@,
            post.lists@[bin * 32 + sub].len() == 0 ==> post.sub_bin_bitmap@
                == pre.sub_bin_bitmap@.update(
                bin,
                pre.sub_bin_bitmap@[bin] & !(1u32 << (sub as u32)),
            ) && post.bin_bitmap == (if post.sub_bin_bitmap@[bin] == 0 {
                pre.bin_bitmap & !(1u64 << (bin as u64))
            } else {
                pre.bin_bitmap
            }),
        ensures
            post.inv_bitmaps(),
    {
        reveal(SpeedAllocator::inv_bitmaps);
        let word = pre.sub_bin_bitmap@[bin];
        lemma_bit64_ops(pre.bin_bitmap, bin as u64);
        lemma_bit32_ops(word, sub as u32);
        lemma_zero32(word);
        assert(bit32(pre.sub_bin_bitmap@[bin], sub) <==> pre.lists@[bin * 32 + sub].len() > 0);
        assert(bit64(pre.bin_bitmap, bin) <==> pre.sub_bin_bitmap@[bin] != 0);
        assert forall|i: int| 0 <= i < BIN_COUNT implies (#[trigger] bit64(post.bin_bitmap, i)
            <==> post.sub_bin_bitmap@[i] != 0) by {
            assert(bit64(pre.bin_bitmap, i) <==> pre.sub_bin_bitmap@[i] != 0);
        }
        assert forall|i: int| BIN_COUNT <= i < 64 implies !#[trigger] bit64(post.bin_bitmap, i) by {
            assert(!bit64(pre.bin_bitmap, i));
        }
        assert forall|i: int, j: int| 0 <= i < BIN_COUNT && 0 <= j < 32 implies (#[trigger] bit32(
            post.sub_bin_bitmap@[i],
            j,
        ) <==> post.lists@[i * 32 + j].len() > 0) by {
            assert(bit32(pre.sub_bin_bitmap@[i], j) <==> pre.lists@[i * 32 + j].len() > 0);
            if i != bin || j != sub {
                assert(post.lists@[i * 32 + j] == pre.lists@[i * 32 + j]);
            }
        }
    }

    /// Takes a listed free block out of the free list of its class, which
    /// `block_map` names. The block floats afterwards.
    #[verifier::rlimit(40)]
    pub(crate) fn remove_free_block(
        &mut self,
        block: usize,
        block_map: BlockMap,
        Ghost(floating): Ghost<Set<usize>>,
    )
        requires
            old(self).inv(floating),
            old(self).free_at(block),
            !floating.contains(block),
            block_map.flat_idx == class_index(old(self).blocks@[block as int].size),
            block_map.bin_idx == block_map.flat_idx / SUB_BIN_COUNT,
            block_map.sub_bin_idx == block_map.flat_idx % SUB_BIN_COUNT,
        ensures
            final(self).inv(floating.insert(block)),
            final(self).same_layout(old(self)),
            final(self).lists@ == PoolModel::lists_without(
                old(self).lists@,
                block_map.flat_idx as int,
                block,
            ),
            final(self).blocks@[block as int] == old(self).blocks@[block as int],
    {
        proof {
            reveal(SpeedAllocator::inv_lists);
            reveal(SpeedAllocator::inv_coalesced);
            reveal(SpeedAllocator::same_layout);
            reveal(SpeedAllocator::popped);
        }
        let ghost pre = *self;
        let ghost f2 = floating.insert(block);
        let ghost j = self.lemma_listed(block, floating);
        let idx: usize = block_map.flat_idx;
        let ghost list = self.lists@[idx as int];
        let record = self.blocks[block];
        let next = record.next_free;
        let prev = record.prev_free;
        if let Some(n) = next {
            let mut after = self.blocks[n];
            after.prev_free = prev;
            self.blocks.set(n, after);
        }
        if let Some(p) = prev {
            let mut before = self.blocks[p];
            before.next_free = next;
            self.blocks.set(p, before);
        }
        let is_head = match self.bins[idx] {
            Some(head) => head == block,
            None => false,
        };
        if is_head {
            if next.is_none() {
                let word: u32 = self.sub_bin_bitmap[block_map.bin_idx];
                let cleared: u32 = word & !(1u32 << (block_map.sub_bin_idx as u32));
                self.sub_bin_bitmap.set(block_map.bin_idx, cleared);
                if cleared == 0 {
                    self.bin_bitmap = self.bin_bitmap & !(1u64 << (block_map.bin_idx as u64));
                }
            }
            self.bins.set(idx, next);
        }
        self.lists = Ghost(self.lists@.update(idx as int, list.remove(j)));
        proof {
            lemma_bounded_set(pre.listed_ids(floating), self.blocks.len());
            assert(pre.listed_ids(floating).contains(block));
        }
        self.num_free_block = self.num_free_block - 1;
        proof {
            assert(self.same_layout(&pre));
            assert(Self::popped(&pre, self, block, idx as int, j));
            Self::lemma_same_layout(&pre, self, floating);
            Self::lemma_popped_lists(&pre, self, block, idx as int, j, floating);
            Self::lemma_popped_bitmaps(
                &pre,
                self,
                block_map.bin_idx as int,
                block_map.sub_bin_idx as int,
            );
            assert(self.listed_ids(f2) =~= pre.listed_ids(floating).remove(block));
            assert forall|k: int, k2: int|
                0 <= k && k2 == k + 1 && k2 < self.chain@.len() implies !(self.free_at(
                #[trigger] self.chain@[k],
            ) && self.free_at(#[trigger] self.chain@[k2]) && !f2.contains(self.chain@[k])
                && !f2.contains(self.chain@[k2])) by {
                assert(pre.chain@[k] == self.chain@[k] && pre.chain@[k2] == self.chain@[k2]);
            }
        }
    }
}

} // verus!
